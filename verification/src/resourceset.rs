//! The set of Internet number resources a CA may certify: AS numbers and
//! IPv4/IPv6 prefixes, each family kept in normal form, with parsing, set
//! algebra and the containment check that guards every delegation.

use vstd::prelude::*;

use crate::grammar::{
    family_max, lemma_parse_family_ok, lemma_round_trip_family, parse_family, push_items,
    ser_items, spec_parse_family, Family,
};
use crate::ranges::{
    covers, lemma_canonical_form, lemma_covers_push, AddrRange, RangeSet,
};
use crate::text::chars_of;

verus! {

/// Why a textual resource expression was rejected.
#[derive(Clone, Copy, PartialEq, Eq, Structural, Debug)]
pub enum ParseError {
    BadAsns,
    BadV4,
    BadV6,
}


/// The model of a resource set: the three range lists.
pub type RsView = (Seq<AddrRange>, Seq<AddrRange>, Seq<AddrRange>);

/// The model of the universal resource set: one full range per family.
pub open spec fn universal_sig() -> RsView {
    (
        seq![AddrRange { lo: 0, hi: 0xFFFF_FFFF }],
        seq![AddrRange { lo: 0, hi: 0xFFFF_FFFF }],
        seq![AddrRange { lo: 0, hi: 0xFFFF_FFFF_FFFF_FFFF_FFFF_FFFF_FFFF_FFFF }],
    )
}

/// Containment at the model level: every resource of `b` is in `a`.
pub open spec fn view_encompasses(a: RsView, b: RsView) -> bool {
    &&& forall|x: int| covers(b.0, x) ==> covers(a.0, x)
    &&& forall|x: int| covers(b.1, x) ==> covers(a.1, x)
    &&& forall|x: int| covers(b.2, x) ==> covers(a.2, x)
}

/// An immutable set of ASNs, IPv4 addresses and IPv6 addresses.
#[derive(Debug)]
pub struct ResourceSet {
    pub asns: RangeSet,
    pub v4: RangeSet,
    pub v6: RangeSet,
}

impl ResourceSet {
    /// Each family is in normal form and within its numeric bound.
    pub open spec fn wf(self) -> bool {
        &&& self.asns.wf() && self.asns.bounded(family_max(Family::Asn))
        &&& self.v4.wf() && self.v4.bounded(family_max(Family::V4))
        &&& self.v6.wf() && self.v6.bounded(family_max(Family::V6))
    }

    /// The model of the set: its three range lists.
    pub open spec fn sig(self) -> RsView {
        (self.asns.ranges@, self.v4.ranges@, self.v6.ranges@)
    }

    /// The AS number `x` belongs to the set.
    pub open spec fn has_asn(self, x: int) -> bool {
        self.asns.covers_val(x)
    }

    /// The IPv4 address `x` belongs to the set.
    pub open spec fn has_v4(self, x: int) -> bool {
        self.v4.covers_val(x)
    }

    /// The IPv6 address `x` belongs to the set.
    pub open spec fn has_v6(self, x: int) -> bool {
        self.v6.covers_val(x)
    }

    /// Every resource of `other` is also in `self`: the delegation-safety
    /// relation.
    pub open spec fn spec_encompasses(self, other: ResourceSet) -> bool {
        &&& forall|x: int| other.has_asn(x) ==> self.has_asn(x)
        &&& forall|x: int| other.has_v4(x) ==> self.has_v4(x)
        &&& forall|x: int| other.has_v6(x) ==> self.has_v6(x)
    }

    /// The two sets hold exactly the same resources, range for range.
    pub open spec fn same_set(self, other: ResourceSet) -> bool {
        &&& self.asns.ranges@ == other.asns.ranges@
        &&& self.v4.ranges@ == other.v4.ranges@
        &&& self.v6.ranges@ == other.v6.ranges@
    }

    /// The empty resource set.
    pub fn empty() -> (r: ResourceSet)
        ensures
            r.wf(),
            forall|x: int| !r.has_asn(x) && !r.has_v4(x) && !r.has_v6(x),
    {
        ResourceSet { asns: RangeSet::empty(), v4: RangeSet::empty(), v6: RangeSet::empty() }
    }

    /// The universal resource set: every ASN, every IPv4 and IPv6 address,
    /// each family as its one full range.
    pub fn all_resources() -> (r: ResourceSet)
        ensures
            r.wf(),
            r.sig() == universal_sig(),
            forall|x: int| 0 <= x <= family_max(Family::Asn) ==> r.has_asn(x),
            forall|x: int| 0 <= x <= family_max(Family::V4) ==> r.has_v4(x),
            forall|x: int| 0 <= x <= family_max(Family::V6) ==> r.has_v6(x),
    {
        let mut asns = RangeSet::empty();
        asns.add_range(0, 0xFFFF_FFFF);
        let mut v4 = RangeSet::empty();
        v4.add_range(0, 0xFFFF_FFFF);
        let mut v6 = RangeSet::empty();
        v6.add_range(0, 0xFFFF_FFFF_FFFF_FFFF_FFFF_FFFF_FFFF_FFFF);
        let r = ResourceSet { asns, v4, v6 };
        proof {
            lemma_is_universal(r);
        }
        r
    }

    /// A copy holding the same ranges.
    pub fn duplicate(&self) -> (r: ResourceSet)
        ensures
            r.same_set(*self),
    {
        ResourceSet {
            asns: self.asns.duplicate(),
            v4: self.v4.duplicate(),
            v6: self.v6.duplicate(),
        }
    }

    /// Parses the three family expressions. Succeeds exactly when all three
    /// texts follow the grammar; the result then holds exactly the parsed
    /// ranges of each family, in normal form.
    #[verifier::rlimit(80)]
    pub fn from_strs(asns: &str, v4: &str, v6: &str) -> (r: Result<ResourceSet, ParseError>)
        ensures
            match r {
                Ok(rs) => {
                    &&& rs.wf()
                    &&& spec_parse_family(Family::Asn, asns@) matches Some(ps) && (forall|x: int|
                        rs.has_asn(x) <==> covers(ps, x))
                    &&& spec_parse_family(Family::V4, v4@) matches Some(ps) && (forall|x: int|
                        rs.has_v4(x) <==> covers(ps, x))
                    &&& spec_parse_family(Family::V6, v6@) matches Some(ps) && (forall|x: int|
                        rs.has_v6(x) <==> covers(ps, x))
                },
                Err(ParseError::BadAsns) => spec_parse_family(Family::Asn, asns@) is None,
                Err(ParseError::BadV4) => spec_parse_family(Family::Asn, asns@) is Some
                    && spec_parse_family(Family::V4, v4@) is None,
                Err(ParseError::BadV6) => spec_parse_family(Family::Asn, asns@) is Some
                    && spec_parse_family(Family::V4, v4@) is Some && spec_parse_family(
                    Family::V6,
                    v6@,
                ) is None,
            },
            r is Ok <==> (spec_parse_family(Family::Asn, asns@) is Some && spec_parse_family(
                Family::V4,
                v4@,
            ) is Some && spec_parse_family(Family::V6, v6@) is Some),
    {
        let ca = chars_of(asns);
        let c4 = chars_of(v4);
        let c6 = chars_of(v6);
        let pa = match parse_family(Family::Asn, &ca) {
            Some(p) => p,
            None => {
                return Err(ParseError::BadAsns);
            },
        };
        let p4 = match parse_family(Family::V4, &c4) {
            Some(p) => p,
            None => {
                return Err(ParseError::BadV4);
            },
        };
        let p6 = match parse_family(Family::V6, &c6) {
            Some(p) => p,
            None => {
                return Err(ParseError::BadV6);
            },
        };
        proof {
            lemma_parse_family_ok(Family::Asn, asns@);
            lemma_parse_family_ok(Family::V4, v4@);
            lemma_parse_family_ok(Family::V6, v6@);
            assert forall|i: int|
                0 <= i < pa@.len() implies (#[trigger] pa@[i]).lo <= pa@[i].hi && pa@[i].hi
                <= 0xFFFF_FFFF by {
                let ps = spec_parse_family(Family::Asn, asns@)->Some_0;
                assert(ps[i].lo <= ps[i].hi && ps[i].hi <= family_max(Family::Asn));
            }
            assert forall|i: int|
                0 <= i < p4@.len() implies (#[trigger] p4@[i]).lo <= p4@[i].hi && p4@[i].hi
                <= 0xFFFF_FFFF by {
                let ps = spec_parse_family(Family::V4, v4@)->Some_0;
                assert(ps[i].lo <= ps[i].hi && ps[i].hi <= family_max(Family::V4));
            }
            assert forall|i: int|
                0 <= i < p6@.len() implies (#[trigger] p6@[i]).lo <= p6@[i].hi && p6@[i].hi
                <= 0xFFFF_FFFF_FFFF_FFFF_FFFF_FFFF_FFFF_FFFF by {
                let ps = spec_parse_family(Family::V6, v6@)->Some_0;
                assert(ps[i].lo <= ps[i].hi && ps[i].hi <= family_max(Family::V6));
            }
        }
        let sa = ranges_to_set(&pa, 0xFFFF_FFFF);
        let s4 = ranges_to_set(&p4, 0xFFFF_FFFF);
        let s6 = ranges_to_set(&p6, 0xFFFF_FFFF_FFFF_FFFF_FFFF_FFFF_FFFF_FFFF);
        Ok(ResourceSet { asns: sa, v4: s4, v6: s6 })
    }


    /// The canonical textual forms of the three families, suitable for
    /// `from_strs`: comma-joined `ASn`/`ASa-ASb` items, dotted quads and
    /// hex-group addresses (single or `lo-hi`), blank for an empty family.
    pub fn to_strs(&self) -> (r: (String, String, String))
        requires
            self.wf(),
        ensures
            r.0@ == ser_items(Family::Asn, self.asns.ranges@),
            r.1@ == ser_items(Family::V4, self.v4.ranges@),
            r.2@ == ser_items(Family::V6, self.v6.ranges@),
    {
        let mut ca: Vec<char> = Vec::new();
        push_items(Family::Asn, &mut ca, &self.asns.ranges, 0);
        let mut c4: Vec<char> = Vec::new();
        push_items(Family::V4, &mut c4, &self.v4.ranges, 0);
        let mut c6: Vec<char> = Vec::new();
        push_items(Family::V6, &mut c6, &self.v6.ranges, 0);
        proof {
            assert(self.asns.ranges@.skip(0) =~= self.asns.ranges@);
            assert(self.v4.ranges@.skip(0) =~= self.v4.ranges@);
            assert(self.v6.ranges@.skip(0) =~= self.v6.ranges@);
        }
        (string_from_chars(&ca), string_from_chars(&c4), string_from_chars(&c6))
    }

    /// The delegation check: does `self` cover everything in `other`?
    pub fn encompasses(&self, other: &ResourceSet) -> (b: bool)
        requires
            self.wf(),
            other.wf(),
        ensures
            b == self.spec_encompasses(*other),
    {
        let ba = self.asns.encompasses(&other.asns);
        let b4 = self.v4.encompasses(&other.v4);
        let b6 = self.v6.encompasses(&other.v6);
        proof {
            assert(ba == (forall|x: int| other.has_asn(x) ==> self.has_asn(x))) by {
                if ba {
                    assert forall|x: int| other.has_asn(x) implies self.has_asn(x) by {
                        assert(other.asns.covers_val(x) ==> self.asns.covers_val(x));
                    }
                } else {
                    let x = choose|x: int|
                        other.asns.covers_val(x) && !self.asns.covers_val(x);
                    assert(other.has_asn(x) && !self.has_asn(x));
                }
            }
            assert(b4 == (forall|x: int| other.has_v4(x) ==> self.has_v4(x))) by {
                if b4 {
                    assert forall|x: int| other.has_v4(x) implies self.has_v4(x) by {
                        assert(other.v4.covers_val(x) ==> self.v4.covers_val(x));
                    }
                } else {
                    let x = choose|x: int|
                        other.v4.covers_val(x) && !self.v4.covers_val(x);
                    assert(other.has_v4(x) && !self.has_v4(x));
                }
            }
            assert(b6 == (forall|x: int| other.has_v6(x) ==> self.has_v6(x))) by {
                if b6 {
                    assert forall|x: int| other.has_v6(x) implies self.has_v6(x) by {
                        assert(other.v6.covers_val(x) ==> self.v6.covers_val(x));
                    }
                } else {
                    let x = choose|x: int|
                        other.v6.covers_val(x) && !self.v6.covers_val(x);
                    assert(other.has_v6(x) && !self.has_v6(x));
                }
            }
        }
        ba && b4 && b6
    }

    /// The set holding the resources of both sets.
    pub fn union(&self, other: &ResourceSet) -> (r: ResourceSet)
        requires
            self.wf(),
            other.wf(),
        ensures
            r.wf(),
            forall|x: int| r.has_asn(x) <==> self.has_asn(x) || other.has_asn(x),
            forall|x: int| r.has_v4(x) <==> self.has_v4(x) || other.has_v4(x),
            forall|x: int| r.has_v6(x) <==> self.has_v6(x) || other.has_v6(x),
    {
        ResourceSet {
            asns: self.asns.union(&other.asns),
            v4: self.v4.union(&other.v4),
            v6: self.v6.union(&other.v6),
        }
    }

    /// The set holding the resources common to both sets.
    pub fn intersect(&self, other: &ResourceSet) -> (r: ResourceSet)
        requires
            self.wf(),
            other.wf(),
        ensures
            r.wf(),
            forall|x: int| r.has_asn(x) <==> self.has_asn(x) && other.has_asn(x),
            forall|x: int| r.has_v4(x) <==> self.has_v4(x) && other.has_v4(x),
            forall|x: int| r.has_v6(x) <==> self.has_v6(x) && other.has_v6(x),
    {
        ResourceSet {
            asns: self.asns.intersect(&other.asns),
            v4: self.v4.intersect(&other.v4),
            v6: self.v6.intersect(&other.v6),
        }
    }
}

/// Folds a list of parsed ranges into a set in normal form covering exactly
/// their union.
#[verifier::loop_isolation(false)]
fn ranges_to_set(pairs: &Vec<AddrRange>, fmax: u128) -> (r: RangeSet)
    requires
        forall|i: int|
            0 <= i < pairs@.len() ==> (#[trigger] pairs@[i]).lo <= pairs@[i].hi && pairs@[i].hi
                <= fmax,
    ensures
        r.wf(),
        r.bounded(fmax as int),
        forall|x: int| r.covers_val(x) <==> covers(pairs@, x),
{
    let mut r = RangeSet::empty();
    let n = pairs.len();
    let mut i: usize = 0;
    while i < n
        invariant
            i <= n,
            n == pairs@.len(),
            r.wf(),
            r.bounded(fmax as int),
            forall|x: int| r.covers_val(x) <==> covers(pairs@.subrange(0, i as int), x),
        decreases n - i,
    {
        let p = pairs[i];
        let ghost pre = pairs@.subrange(0, i as int);
        r.add_range(p.lo, p.hi);
        proof {
            assert(pairs@.subrange(0, i as int + 1) =~= pre.push(p));
            lemma_covers_push(pre, p);
        }
        i += 1;
    }
    proof {
        assert(pairs@.subrange(0, n as int) =~= pairs@);
    }
    r
}


/// Relies on `String::from_iter` over characters: the built string holds
/// exactly the characters of `v`, in order.
#[verifier::external_body]
fn string_from_chars(v: &Vec<char>) -> (r: String)
    ensures
        r@ == v@,
{
    v.iter().collect()
}

impl PartialEq for ResourceSet {
    /// Structural equality: after normalization two sets holding the same
    /// resources compare equal.
    fn eq(&self, other: &ResourceSet) -> (b: bool) {
        self.asns.same_as(&other.asns) && self.v4.same_as(&other.v4) && self.v6.same_as(&other.v6)
    }
}

impl vstd::std_specs::cmp::PartialEqSpecImpl for ResourceSet {
    open spec fn obeys_eq_spec() -> bool {
        true
    }

    open spec fn eq_spec(&self, other: &ResourceSet) -> bool {
        self.same_set(*other)
    }
}


/// Containment of the values and of their models coincide.
pub proof fn lemma_encompasses_views(a: ResourceSet, b: ResourceSet)
    ensures
        a.spec_encompasses(b) == view_encompasses(a.sig(), b.sig()),
{
    if a.spec_encompasses(b) {
        assert forall|x: int| covers(b.sig().0, x) implies covers(a.sig().0, x) by {
            assert(b.has_asn(x) ==> a.has_asn(x));
        }
        assert forall|x: int| covers(b.sig().1, x) implies covers(a.sig().1, x) by {
            assert(b.has_v4(x) ==> a.has_v4(x));
        }
        assert forall|x: int| covers(b.sig().2, x) implies covers(a.sig().2, x) by {
            assert(b.has_v6(x) ==> a.has_v6(x));
        }
    }
    if view_encompasses(a.sig(), b.sig()) {
        assert forall|x: int| b.has_asn(x) implies a.has_asn(x) by {
            assert(covers(b.sig().0, x) ==> covers(a.sig().0, x));
        }
        assert forall|x: int| b.has_v4(x) implies a.has_v4(x) by {
            assert(covers(b.sig().1, x) ==> covers(a.sig().1, x));
        }
        assert forall|x: int| b.has_v6(x) implies a.has_v6(x) by {
            assert(covers(b.sig().2, x) ==> covers(a.sig().2, x));
        }
        assert(a.spec_encompasses(b));
    }
}


/// The textual round-trip law: parsing a set's own canonical text succeeds
/// and yields exactly its ranges in every family, so any set built from that
/// text (as `from_strs` promises of its result) is, range for range, the set
/// it was printed from.
pub proof fn lemma_text_round_trip(rs: ResourceSet, rs2: ResourceSet)
    requires
        rs.wf(),
        rs2.wf(),
        spec_parse_family(Family::Asn, ser_items(Family::Asn, rs.asns.ranges@)) matches Some(ps)
            && (forall|x: int| rs2.has_asn(x) <==> covers(ps, x)),
        spec_parse_family(Family::V4, ser_items(Family::V4, rs.v4.ranges@)) matches Some(ps)
            && (forall|x: int| rs2.has_v4(x) <==> covers(ps, x)),
        spec_parse_family(Family::V6, ser_items(Family::V6, rs.v6.ranges@)) matches Some(ps)
            && (forall|x: int| rs2.has_v6(x) <==> covers(ps, x)),
    ensures
        rs2.same_set(rs),
{
    lemma_round_trip_family(Family::Asn, rs.asns.ranges@);
    lemma_round_trip_family(Family::V4, rs.v4.ranges@);
    lemma_round_trip_family(Family::V6, rs.v6.ranges@);
    assert forall|x: int| covers(rs2.asns.ranges@, x) <==> covers(rs.asns.ranges@, x) by {
        assert(rs2.has_asn(x) <==> covers(rs.asns.ranges@, x));
    }
    lemma_canonical_form(rs2.asns.ranges@, rs.asns.ranges@);
    assert forall|x: int| covers(rs2.v4.ranges@, x) <==> covers(rs.v4.ranges@, x) by {
        assert(rs2.has_v4(x) <==> covers(rs.v4.ranges@, x));
    }
    lemma_canonical_form(rs2.v4.ranges@, rs.v4.ranges@);
    assert forall|x: int| covers(rs2.v6.ranges@, x) <==> covers(rs.v6.ranges@, x) by {
        assert(rs2.has_v6(x) <==> covers(rs.v6.ranges@, x));
    }
    lemma_canonical_form(rs2.v6.ranges@, rs.v6.ranges@);
}


/// A set in normal form covering each full family range is, range for range,
/// the universal set: normal form is canonical.
proof fn lemma_is_universal(r: ResourceSet)
    requires
        r.wf(),
        forall|x: int| 0 <= x <= family_max(Family::Asn) ==> r.has_asn(x),
        forall|x: int| 0 <= x <= family_max(Family::V4) ==> r.has_v4(x),
        forall|x: int| 0 <= x <= family_max(Family::V6) ==> r.has_v6(x),
        forall|x: int| r.has_asn(x) ==> 0 <= x <= family_max(Family::Asn),
        forall|x: int| r.has_v4(x) ==> 0 <= x <= family_max(Family::V4),
        forall|x: int| r.has_v6(x) ==> 0 <= x <= family_max(Family::V6),
    ensures
        r.sig() == universal_sig(),
{
    let u = universal_sig();
    assert(crate::ranges::ranges_wf(u.0));
    assert(crate::ranges::ranges_wf(u.1));
    assert(crate::ranges::ranges_wf(u.2));
    assert forall|x: int| covers(r.asns.ranges@, x) <==> covers(u.0, x) by {
        assert(covers(u.0, x) <==> crate::ranges::in_range(u.0[0], x)) by {
            if covers(u.0, x) {
                let k = choose|k: int| 0 <= k < u.0.len() && crate::ranges::in_range(u.0[k], x);
                assert(k == 0);
            } else if crate::ranges::in_range(u.0[0], x) {
                assert(covers(u.0, x));
            }
        }
        assert(r.has_asn(x) ==> 0 <= x <= family_max(Family::Asn));
        assert(0 <= x <= family_max(Family::Asn) ==> r.has_asn(x));
    }
    lemma_canonical_form(r.asns.ranges@, u.0);
    assert forall|x: int| covers(r.v4.ranges@, x) <==> covers(u.1, x) by {
        assert(covers(u.1, x) <==> crate::ranges::in_range(u.1[0], x)) by {
            if covers(u.1, x) {
                let k = choose|k: int| 0 <= k < u.1.len() && crate::ranges::in_range(u.1[k], x);
                assert(k == 0);
            } else if crate::ranges::in_range(u.1[0], x) {
                assert(covers(u.1, x));
            }
        }
        assert(r.has_v4(x) ==> 0 <= x <= family_max(Family::V4));
        assert(0 <= x <= family_max(Family::V4) ==> r.has_v4(x));
    }
    lemma_canonical_form(r.v4.ranges@, u.1);
    assert forall|x: int| covers(r.v6.ranges@, x) <==> covers(u.2, x) by {
        assert(covers(u.2, x) <==> crate::ranges::in_range(u.2[0], x)) by {
            if covers(u.2, x) {
                let k = choose|k: int| 0 <= k < u.2.len() && crate::ranges::in_range(u.2[k], x);
                assert(k == 0);
            } else if crate::ranges::in_range(u.2[0], x) {
                assert(covers(u.2, x));
            }
        }
        assert(r.has_v6(x) ==> 0 <= x <= family_max(Family::V6));
        assert(0 <= x <= family_max(Family::V6) ==> r.has_v6(x));
    }
    lemma_canonical_form(r.v6.ranges@, u.2);
}

/// Containment is reflexive: every set encompasses itself.
pub proof fn lemma_encompasses_reflexive(a: ResourceSet)
    ensures
        a.spec_encompasses(a),
{
}

/// Containment is transitive along a delegation chain.
pub proof fn lemma_encompasses_transitive(a: ResourceSet, b: ResourceSet, c: ResourceSet)
    requires
        a.spec_encompasses(b),
        b.spec_encompasses(c),
    ensures
        a.spec_encompasses(c),
{
}

/// Containment is antisymmetric: two normal-form sets that encompass each
/// other hold exactly the same ranges, so they are equal.
pub proof fn lemma_encompasses_antisymmetric(a: ResourceSet, b: ResourceSet)
    requires
        a.wf(),
        b.wf(),
        a.spec_encompasses(b),
        b.spec_encompasses(a),
    ensures
        a.same_set(b),
{
    assert forall|x: int| covers(a.asns.ranges@, x) <==> covers(b.asns.ranges@, x) by {
        assert(a.has_asn(x) ==> b.has_asn(x));
        assert(b.has_asn(x) ==> a.has_asn(x));
    }
    assert forall|x: int| covers(a.v4.ranges@, x) <==> covers(b.v4.ranges@, x) by {
        assert(a.has_v4(x) ==> b.has_v4(x));
        assert(b.has_v4(x) ==> a.has_v4(x));
    }
    assert forall|x: int| covers(a.v6.ranges@, x) <==> covers(b.v6.ranges@, x) by {
        assert(a.has_v6(x) ==> b.has_v6(x));
        assert(b.has_v6(x) ==> a.has_v6(x));
    }
    lemma_canonical_form(a.asns.ranges@, b.asns.ranges@);
    lemma_canonical_form(a.v4.ranges@, b.v4.ranges@);
    lemma_canonical_form(a.v6.ranges@, b.v6.ranges@);
}

/// A well-formed set is determined by the resources it holds: normal form is
/// canonical.
pub proof fn lemma_same_resources_same_set(a: ResourceSet, b: ResourceSet)
    requires
        a.wf(),
        b.wf(),
        forall|x: int| a.has_asn(x) <==> b.has_asn(x),
        forall|x: int| a.has_v4(x) <==> b.has_v4(x),
        forall|x: int| a.has_v6(x) <==> b.has_v6(x),
    ensures
        a.same_set(b),
{
    assert forall|x: int| covers(a.asns.ranges@, x) <==> covers(b.asns.ranges@, x) by {
        assert(a.has_asn(x) ==> b.has_asn(x));
        assert(b.has_asn(x) ==> a.has_asn(x));
    }
    assert forall|x: int| covers(a.v4.ranges@, x) <==> covers(b.v4.ranges@, x) by {
        assert(a.has_v4(x) ==> b.has_v4(x));
        assert(b.has_v4(x) ==> a.has_v4(x));
    }
    assert forall|x: int| covers(a.v6.ranges@, x) <==> covers(b.v6.ranges@, x) by {
        assert(a.has_v6(x) ==> b.has_v6(x));
        assert(b.has_v6(x) ==> a.has_v6(x));
    }
    lemma_canonical_form(a.asns.ranges@, b.asns.ranges@);
    lemma_canonical_form(a.v4.ranges@, b.v4.ranges@);
    lemma_canonical_form(a.v6.ranges@, b.v6.ranges@);
}

/// The universal set encompasses every well-formed resource set, in
/// particular anything built by parsing.
pub proof fn lemma_all_resources_encompass(univ: ResourceSet, child: ResourceSet)
    requires
        child.wf(),
        univ.wf(),
        forall|x: int| 0 <= x <= family_max(Family::Asn) ==> univ.has_asn(x),
        forall|x: int| 0 <= x <= family_max(Family::V4) ==> univ.has_v4(x),
        forall|x: int| 0 <= x <= family_max(Family::V6) ==> univ.has_v6(x),
    ensures
        univ.spec_encompasses(child),
{
    assert forall|x: int| child.has_asn(x) implies univ.has_asn(x) by {
        lemma_member_in_bounds(child.asns, family_max(Family::Asn), x);
    }
    assert forall|x: int| child.has_v4(x) implies univ.has_v4(x) by {
        lemma_member_in_bounds(child.v4, family_max(Family::V4), x);
    }
    assert forall|x: int| child.has_v6(x) implies univ.has_v6(x) by {
        lemma_member_in_bounds(child.v6, family_max(Family::V6), x);
    }
}

/// A member of a well-formed, bounded range set lies within the bound.
pub proof fn lemma_member_in_bounds(s: RangeSet, max: int, x: int)
    requires
        s.wf(),
        s.bounded(max),
        s.covers_val(x),
    ensures
        0 <= x <= max,
{
    let i = choose|i: int|
        0 <= i < s.ranges@.len() && crate::ranges::in_range(s.ranges@[i], x);
    assert(s.ranges@[i].hi <= max);
}

} // verus!
