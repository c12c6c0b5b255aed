//! Normalized sets of unsigned numbers, kept as sorted lists of inclusive
//! ranges. ASNs and IPv4/IPv6 addresses are all widened to `u128`, so one
//! range type serves the three resource families.

use vstd::prelude::*;

verus! {

/// One inclusive, non-empty range of numbers.
#[derive(Clone, Copy, PartialEq, Eq, Structural, Debug)]
pub struct AddrRange {
    pub lo: u128,
    pub hi: u128,
}

/// `x` lies inside the range `r`.
pub open spec fn in_range(r: AddrRange, x: int) -> bool {
    r.lo <= x <= r.hi
}

/// Some range of `s` contains `x`: the mathematical set a range list stands for.
pub open spec fn covers(s: Seq<AddrRange>, x: int) -> bool {
    exists|i: int| 0 <= i < s.len() && #[trigger] in_range(s[i], x)
}

/// Normal form: every range non-empty, ranges strictly sorted, pairwise
/// disjoint and separated by at least one absent number (never adjacent).
/// Two normal lists covering the same numbers are therefore identical.
pub open spec fn ranges_wf(s: Seq<AddrRange>) -> bool {
    &&& forall|i: int| 0 <= i < s.len() ==> (#[trigger] s[i]).lo <= s[i].hi
    &&& forall|i: int, j: int|
        #![trigger s[i], s[j]]
        0 <= i < j < s.len() ==> s[i].hi + 1 < s[j].lo
}

/// Every range of `s` stays at or below `max`.
pub open spec fn ranges_bounded(s: Seq<AddrRange>, max: int) -> bool {
    forall|i: int| 0 <= i < s.len() ==> (#[trigger] s[i]).hi <= max
}

pub proof fn lemma_bounded_covers(s: Seq<AddrRange>, max: int)
    requires
        ranges_wf(s),
    ensures
        ranges_bounded(s, max) <==> (forall|x: int| covers(s, x) ==> x <= max),
{
    if forall|x: int| covers(s, x) ==> x <= max {
        assert forall|i: int| 0 <= i < s.len() implies (#[trigger] s[i]).hi <= max by {
            assert(in_range(s[i], s[i].hi as int));
            assert(covers(s, s[i].hi as int));
        }
    }
}

pub proof fn lemma_covers_concat(s1: Seq<AddrRange>, s2: Seq<AddrRange>)
    ensures
        forall|x: int| covers(s1 + s2, x) <==> covers(s1, x) || covers(s2, x),
{
    assert forall|x: int| covers(s1 + s2, x) implies covers(s1, x) || covers(s2, x) by {
        let i = choose|i: int| 0 <= i < (s1 + s2).len() && in_range((s1 + s2)[i], x);
        if i < s1.len() {
            assert(in_range(s1[i], x));
        } else {
            assert(in_range(s2[i - s1.len()], x));
        }
    }
    assert forall|x: int| covers(s1, x) || covers(s2, x) implies covers(s1 + s2, x) by {
        if covers(s1, x) {
            let i = choose|i: int| 0 <= i < s1.len() && in_range(s1[i], x);
            assert(in_range((s1 + s2)[i], x));
        } else {
            let i = choose|i: int| 0 <= i < s2.len() && in_range(s2[i], x);
            assert(in_range((s1 + s2)[i + s1.len()], x));
        }
    }
}


/// Some single range of `s` contains the whole interval `lo ..= hi`.
pub open spec fn seq_contains_interval(s: Seq<AddrRange>, lo: int, hi: int) -> bool {
    exists|i: int| 0 <= i < s.len() && (#[trigger] s[i]).lo <= lo && hi <= s[i].hi
}

/// In normal form, an interval that is not inside one single range has a
/// member that the set misses: the ranges cannot cover it jointly.
pub proof fn lemma_interval_witness(s: Seq<AddrRange>, lo: int, hi: int)
    requires
        ranges_wf(s),
        lo <= hi,
        !seq_contains_interval(s, lo, hi),
    ensures
        exists|x: int| lo <= x <= hi && !covers(s, x),
{
    if !covers(s, lo) {
        assert(lo <= lo <= hi && !covers(s, lo));
    } else {
        let i = choose|i: int| 0 <= i < s.len() && in_range(s[i], lo);
        assert(hi > s[i].hi);
        let x = s[i].hi + 1;
        assert forall|j: int| 0 <= j < s.len() implies !in_range(#[trigger] s[j], x) by {
            if j < i {
                assert(s[j].hi + 1 < s[i].lo);
            } else if j == i {
            } else {
                assert(s[i].hi + 1 < s[j].lo);
            }
        }
        assert(lo <= x <= hi && !covers(s, x));
    }
}

/// Two normal-form lists that cover the same numbers are the same list:
/// the normal form is canonical.
pub proof fn lemma_canonical_form(a: Seq<AddrRange>, b: Seq<AddrRange>)
    requires
        ranges_wf(a),
        ranges_wf(b),
        forall|x: int| covers(a, x) <==> covers(b, x),
    ensures
        a =~= b,
    decreases a.len(),
{
    if a.len() == 0 {
        if b.len() > 0 {
            assert(in_range(b[0], b[0].lo as int));
            assert(covers(b, b[0].lo as int));
            assert(false);
        }
    } else if b.len() == 0 {
        assert(in_range(a[0], a[0].lo as int));
        assert(covers(a, a[0].lo as int));
        assert(false);
    } else {
        // The first ranges start together.
        assert(in_range(a[0], a[0].lo as int));
        assert(covers(a, a[0].lo as int));
        let j = choose|j: int| 0 <= j < b.len() && in_range(b[j], a[0].lo as int);
        assert(b[0].lo <= a[0].lo) by {
            if j > 0 {
                assert(b[0].hi + 1 < b[j].lo);
            }
        }
        assert(in_range(b[0], b[0].lo as int));
        assert(covers(b, b[0].lo as int));
        let j2 = choose|j2: int| 0 <= j2 < a.len() && in_range(a[j2], b[0].lo as int);
        assert(a[0].lo <= b[0].lo) by {
            if j2 > 0 {
                assert(a[0].hi + 1 < a[j2].lo);
            }
        }
        // And they end together.
        assert(a[0].hi == b[0].hi) by {
            if a[0].hi < b[0].hi {
                let x = a[0].hi + 1;
                assert(in_range(b[0], x));
                assert(covers(b, x));
                let k = choose|k: int| 0 <= k < a.len() && in_range(a[k], x);
                if k > 0 {
                    assert(a[0].hi + 1 < a[k].lo);
                }
                assert(false);
            } else if b[0].hi < a[0].hi {
                let x = b[0].hi + 1;
                assert(in_range(a[0], x));
                assert(covers(a, x));
                let k = choose|k: int| 0 <= k < b.len() && in_range(b[k], x);
                if k > 0 {
                    assert(b[0].hi + 1 < b[k].lo);
                }
                assert(false);
            }
        }
        let a1 = a.drop_first();
        let b1 = b.drop_first();
        assert(ranges_wf(a1) && ranges_wf(b1)) by {
            assert(forall|i: int| 0 <= i < a1.len() ==> a1[i] == a[i + 1]);
            assert(forall|i: int| 0 <= i < b1.len() ==> b1[i] == b[i + 1]);
        }
        assert forall|x: int| covers(a1, x) <==> covers(b1, x) by {
            lemma_covers_drop_first(a, x);
            lemma_covers_drop_first(b, x);
            assert(a[0] == b[0]);
        }
        lemma_canonical_form(a1, b1);
        assert(a =~= seq![a[0]] + a1);
        assert(b =~= seq![b[0]] + b1);
    }
}

/// In normal form, the tail covers exactly what the whole list covers
/// outside the first range.
pub proof fn lemma_covers_drop_first(s: Seq<AddrRange>, x: int)
    requires
        ranges_wf(s),
        s.len() > 0,
    ensures
        covers(s.drop_first(), x) <==> (covers(s, x) && !in_range(s[0], x)),
{
    let s1 = s.drop_first();
    if covers(s1, x) {
        let i = choose|i: int| 0 <= i < s1.len() && in_range(s1[i], x);
        assert(s1[i] == s[i + 1]);
        assert(in_range(s[i + 1], x));
        assert(covers(s, x));
        assert(s[0].hi + 1 < s[i + 1].lo);
        assert(!in_range(s[0], x));
    }
    if covers(s, x) && !in_range(s[0], x) {
        let i = choose|i: int| 0 <= i < s.len() && in_range(s[i], x);
        assert(i > 0);
        assert(s1[i - 1] == s[i]);
        assert(in_range(s1[i - 1], x));
        assert(covers(s1, x));
    }
}

pub proof fn lemma_covers_push(s: Seq<AddrRange>, r: AddrRange)
    ensures
        forall|x: int| covers(s.push(r), x) <==> covers(s, x) || in_range(r, x),
{
    lemma_covers_concat(s, seq![r]);
    assert(s.push(r) =~= s + seq![r]);
    assert forall|x: int| covers(seq![r], x) <==> in_range(r, x) by {
        if covers(seq![r], x) {
            let k = choose|k: int| 0 <= k < seq![r].len() && in_range(seq![r][k], x);
            assert(k == 0);
        } else if in_range(r, x) {
            assert(in_range(seq![r][0], x));
        }
    }
}

/// A set of numbers in normal form. Used for each of the three resource
/// families of a `ResourceSet`.
#[derive(Debug)]
pub struct RangeSet {
    pub ranges: Vec<AddrRange>,
}

impl RangeSet {
    /// The list is in normal form.
    pub open spec fn wf(self) -> bool {
        ranges_wf(self.ranges@)
    }

    /// The number `x` belongs to the set.
    pub open spec fn covers_val(self, x: int) -> bool {
        covers(self.ranges@, x)
    }

    /// All members stay at or below `max` (the family bound).
    pub open spec fn bounded(self, max: int) -> bool {
        ranges_bounded(self.ranges@, max)
    }

    /// The empty set.
    pub fn empty() -> (r: RangeSet)
        ensures
            r.ranges@ =~= Seq::<AddrRange>::empty(),
            r.wf(),
            forall|x: int| !r.covers_val(x),
    {
        RangeSet { ranges: Vec::new() }
    }

    /// A copy with the same ranges.
    #[verifier::loop_isolation(false)]
    pub fn duplicate(&self) -> (r: RangeSet)
        ensures
            r.ranges@ == self.ranges@,
    {
        let mut v: Vec<AddrRange> = Vec::new();
        let n = self.ranges.len();
        let mut i: usize = 0;
        while i < n
            invariant
                i <= n,
                n == self.ranges.len(),
                v@ =~= self.ranges@.subrange(0, i as int),
            decreases n - i,
        {
            v.push(self.ranges[i]);
            i += 1;
        }
        assert(v@ =~= self.ranges@);
        RangeSet { ranges: v }
    }

    /// Adds the inclusive range `lo ..= hi`, merging with whatever it overlaps
    /// or touches, so the result is again in normal form and covers exactly
    /// the old numbers plus the new range.
    #[verifier::loop_isolation(false)]
    pub fn add_range(&mut self, lo: u128, hi: u128)
        requires
            old(self).wf(),
            lo <= hi,
        ensures
            final(self).wf(),
            forall|x: int|
                final(self).covers_val(x) <==> old(self).covers_val(x) || lo <= x <= hi,
            forall|m: int|
                old(self).bounded(m) && hi <= m ==> final(self).bounded(m),
    {
        let n = self.ranges.len();
        let mut out: Vec<AddrRange> = Vec::new();
        let mut i: usize = 0;
        // Ranges that end strictly before `lo`, with a gap.
        while i < n && self.ranges[i].hi < lo && lo - self.ranges[i].hi > 1
            invariant
                i <= n,
                n == self.ranges.len(),
                out@ =~= self.ranges@.subrange(0, i as int),
                forall|k: int| 0 <= k < i ==> (#[trigger] self.ranges@[k]).hi + 1 < lo,
            decreases n - i,
        {
            out.push(self.ranges[i]);
            i += 1;
        }
        let ghost p: int = i as int;
        // Merge everything that overlaps or touches `lo ..= hi`.
        let mut mlo = lo;
        let mut mhi = hi;
        while i < n && (self.ranges[i].lo <= hi || (hi < u128::MAX && self.ranges[i].lo == hi + 1))
            invariant
                old(self).wf(),
                p <= i <= n,
                n == self.ranges.len(),
                self == old(self),
                out@ =~= self.ranges@.subrange(0, p),
                forall|k: int| 0 <= k < p ==> (#[trigger] self.ranges@[k]).hi + 1 < lo,
                forall|k: int| 0 <= k < p ==> (#[trigger] self.ranges@[k]).hi + 1 < mlo,
                mlo <= lo,
                hi <= mhi,
                mhi == hi || (exists|k: int| p <= k < i && mhi == (#[trigger] self.ranges@[k]).hi),
                forall|x: int|
                    (mlo <= x <= mhi) <==> (lo <= x <= hi || covers(
                        self.ranges@.subrange(p, i as int),
                        x,
                    )),
            decreases n - i,
        {
            let r = self.ranges[i];
            let ghost sub_old = self.ranges@.subrange(p, i as int);
            let ghost sub_new = self.ranges@.subrange(p, i as int + 1);
            assert(sub_new =~= sub_old.push(r));
            // `r` overlaps or touches the merged interval built so far.
            assert(r.lo <= mhi + 1);
            assert(r.hi + 1 >= mlo) by {
                if i > p {
                    assert(self.ranges@[p].hi + 1 < r.lo);
                    assert(sub_old[0] == self.ranges@[p]);
                    assert(in_range(sub_old[0], self.ranges@[p].lo as int));
                    assert(covers(sub_old, self.ranges@[p].lo as int));
                } else {
                    // phase one stopped here: r.hi + 1 >= lo
                }
            }
            let new_mlo = if r.lo < mlo { r.lo } else { mlo };
            let new_mhi = if r.hi > mhi { r.hi } else { mhi };
            assert forall|x: int| (new_mlo <= x <= new_mhi) implies (lo <= x <= hi || covers(
                sub_new,
                x,
            )) by {
                if x < mlo {
                    assert(r.lo <= x <= r.hi);
                    assert(in_range(sub_new[sub_new.len() - 1], x));
                } else if x > mhi {
                    assert(r.lo <= x <= r.hi);
                    assert(in_range(sub_new[sub_new.len() - 1], x));
                } else {
                    if !(lo <= x <= hi) {
                        assert(covers(sub_old, x));
                        let k = choose|k: int| 0 <= k < sub_old.len() && in_range(sub_old[k], x);
                        assert(in_range(sub_new[k], x));
                    }
                }
            }
            assert forall|x: int| (lo <= x <= hi || covers(sub_new, x)) implies (new_mlo <= x
                <= new_mhi) by {
                if covers(sub_new, x) {
                    let k = choose|k: int| 0 <= k < sub_new.len() && in_range(sub_new[k], x);
                    if k < sub_old.len() {
                        assert(in_range(sub_old[k], x));
                        assert(covers(sub_old, x));
                    }
                }
            }
            mlo = new_mlo;
            mhi = new_mhi;
            i += 1;
        }
        let merged = AddrRange { lo: mlo, hi: mhi };
        out.push(merged);
        let ghost q: int = i as int;
        // Everything after `i` starts past `mhi + 1`.
        assert forall|j: int| q <= j < n implies mhi + 1 < (#[trigger] self.ranges@[j]).lo by {
            if mhi == hi {
                if i < n {
                    assert(self.ranges@[q].lo > hi + 1);
                    if j > q {
                        assert(self.ranges@[q].lo <= self.ranges@[q].hi);
                    }
                }
            } else {
                let k = choose|k: int| p <= k < q && mhi == self.ranges@[k].hi;
                assert(self.ranges@[k].hi + 1 < self.ranges@[j].lo);
            }
        }
        let mut j: usize = i;
        while j < n
            invariant
                old(self).wf(),
                p <= q <= j <= n,
                n == self.ranges.len(),
                self == old(self),
                out@ =~= self.ranges@.subrange(0, p).push(merged) + self.ranges@.subrange(
                    q,
                    j as int,
                ),
            decreases n - j,
        {
            let ghost out_old = out@;
            out.push(self.ranges[j]);
            assert(out@ =~= out_old.push(self.ranges@[j as int]));
            assert(self.ranges@.subrange(q, j as int + 1) =~= self.ranges@.subrange(
                q,
                j as int,
            ).push(self.ranges@[j as int]));
            assert(out@ =~= self.ranges@.subrange(0, p).push(merged) + self.ranges@.subrange(
                q,
                j as int + 1,
            ));
            j += 1;
        }
        let ghost olds = self.ranges@;
        self.ranges = out;
        proof {
            let fin = olds.subrange(0, p).push(merged) + olds.subrange(q, n as int);
            assert(self.ranges@ =~= fin);
            // Normal form.
            assert forall|a: int, b: int|
                #![trigger fin[a], fin[b]]
                0 <= a < b < fin.len() implies fin[a].hi + 1 < fin[b].lo by {
                if b < p {
                    assert(fin[a] == olds[a] && fin[b] == olds[b]);
                } else if b == p {
                    assert(fin[a] == olds[a] && fin[b] == merged);
                    assert(olds[a].hi + 1 < mlo);
                } else if a < p {
                    assert(fin[a] == olds[a] && fin[b] == olds[q + (b - p - 1)]);
                    assert(olds[a].hi + 1 < olds[q + (b - p - 1)].lo);
                } else if a == p {
                    assert(fin[a] == merged && fin[b] == olds[q + (b - p - 1)]);
                    assert(mhi + 1 < olds[q + (b - p - 1)].lo);
                } else {
                    assert(fin[a] == olds[q + (a - p - 1)] && fin[b] == olds[q + (b - p - 1)]);
                    assert(olds[q + (a - p - 1)].hi + 1 < olds[q + (b - p - 1)].lo);
                }
            }
            assert(self.wf());
            // Coverage.
            let left = olds.subrange(0, p);
            let right = olds.subrange(q, n as int);
            let mid = olds.subrange(p, q);
            lemma_covers_concat(left.push(merged), right);
            lemma_covers_concat(left, seq![merged]);
            assert(left.push(merged) =~= left + seq![merged]);
            lemma_covers_concat(left, mid);
            lemma_covers_concat(left + mid, right);
            assert(olds =~= (left + mid) + right);
            assert forall|x: int| self.covers_val(x) <==> (covers(olds, x) || lo <= x <= hi) by {
                assert(covers(seq![merged], x) <==> in_range(merged, x)) by {
                    if covers(seq![merged], x) {
                        let k = choose|k: int|
                            0 <= k < seq![merged].len() && in_range(seq![merged][k], x);
                        assert(k == 0);
                    } else {
                        if in_range(merged, x) {
                            assert(in_range(seq![merged][0], x));
                        }
                    }
                }
                assert(covers(fin, x) <==> covers(left.push(merged), x) || covers(right, x));
                assert(covers(left.push(merged), x) <==> covers(left, x) || covers(
                    seq![merged],
                    x,
                ));
                assert(in_range(merged, x) <==> (lo <= x <= hi || covers(mid, x)));
                assert(covers(olds, x) <==> covers(left, x) || covers(mid, x) || covers(right, x));
            }
            assert(olds == old(self).ranges@);
            assert forall|x: int|
                self.covers_val(x) <==> old(self).covers_val(x) || lo <= x <= hi by {
                assert(self.covers_val(x) <==> (covers(olds, x) || lo <= x <= hi));
            }
            // Boundedness.
            assert forall|m: int| ranges_bounded(olds, m) && hi <= m implies self.bounded(m) by {
                lemma_bounded_covers(olds, m);
                lemma_bounded_covers(self.ranges@, m);
                assert forall|x: int| covers(self.ranges@, x) implies x <= m by {
                    assert(covers(olds, x) || lo <= x <= hi);
                }
            }
        }
    }

    /// Whether one single range contains the whole of `lo ..= hi`; in normal
    /// form this is the same as the set containing every number of it.
    #[verifier::loop_isolation(false)]
    pub fn contains_interval(&self, lo: u128, hi: u128) -> (b: bool)
        requires
            self.wf(),
            lo <= hi,
        ensures
            b == seq_contains_interval(self.ranges@, lo as int, hi as int),
    {
        let n = self.ranges.len();
        let mut i: usize = 0;
        while i < n
            invariant
                i <= n,
                n == self.ranges.len(),
                forall|k: int|
                    0 <= k < i ==> !((#[trigger] self.ranges@[k]).lo <= lo && hi
                        <= self.ranges@[k].hi),
            decreases n - i,
        {
            let r = self.ranges[i];
            if r.lo <= lo && hi <= r.hi {
                assert(seq_contains_interval(self.ranges@, lo as int, hi as int));
                return true;
            }
            i += 1;
        }
        false
    }

    /// The delegation check: every number of `other` is also in `self`.
    #[verifier::loop_isolation(false)]
    pub fn encompasses(&self, other: &RangeSet) -> (b: bool)
        requires
            self.wf(),
            other.wf(),
        ensures
            b == (forall|x: int| other.covers_val(x) ==> self.covers_val(x)),
    {
        let n = other.ranges.len();
        let mut k: usize = 0;
        while k < n
            invariant
                k <= n,
                n == other.ranges.len(),
                forall|t: int|
                    0 <= t < k ==> seq_contains_interval(
                        self.ranges@,
                        (#[trigger] other.ranges@[t]).lo as int,
                        other.ranges@[t].hi as int,
                    ),
            decreases n - k,
        {
            let r = other.ranges[k];
            if !self.contains_interval(r.lo, r.hi) {
                proof {
                    lemma_interval_witness(self.ranges@, r.lo as int, r.hi as int);
                    let x = choose|x: int|
                        r.lo <= x <= r.hi && !covers(self.ranges@, x);
                    assert(in_range(other.ranges@[k as int], x));
                    assert(other.covers_val(x) && !self.covers_val(x));
                }
                return false;
            }
            k += 1;
        }
        proof {
            assert forall|x: int| other.covers_val(x) implies self.covers_val(x) by {
                let t = choose|t: int|
                    0 <= t < other.ranges@.len() && in_range(other.ranges@[t], x);
                assert(seq_contains_interval(
                    self.ranges@,
                    other.ranges@[t].lo as int,
                    other.ranges@[t].hi as int,
                ));
                let i = choose|i: int|
                    0 <= i < self.ranges@.len() && self.ranges@[i].lo <= other.ranges@[t].lo as int
                        && other.ranges@[t].hi as int <= self.ranges@[i].hi;
                assert(in_range(self.ranges@[i], x));
            }
        }
        true
    }

    /// The set holding the numbers of both sets.
    #[verifier::loop_isolation(false)]
    pub fn union(&self, other: &RangeSet) -> (r: RangeSet)
        requires
            self.wf(),
            other.wf(),
        ensures
            r.wf(),
            forall|x: int| r.covers_val(x) <==> self.covers_val(x) || other.covers_val(x),
            forall|m: int| self.bounded(m) && other.bounded(m) ==> r.bounded(m),
    {
        let mut r = self.duplicate();
        let n = other.ranges.len();
        let mut k: usize = 0;
        while k < n
            invariant
                k <= n,
                n == other.ranges.len(),
                self.wf(),
                other.wf(),
                r.wf(),
                forall|x: int|
                    r.covers_val(x) <==> self.covers_val(x) || covers(
                        other.ranges@.subrange(0, k as int),
                        x,
                    ),
                forall|m: int| self.bounded(m) && other.bounded(m) ==> r.bounded(m),
            decreases n - k,
        {
            let rng = other.ranges[k];
            let ghost pre = other.ranges@.subrange(0, k as int);
            let ghost post = other.ranges@.subrange(0, k as int + 1);
            r.add_range(rng.lo, rng.hi);
            proof {
                assert(post =~= pre.push(rng));
                lemma_covers_push(pre, rng);
            }
            k += 1;
        }
        proof {
            assert(other.ranges@.subrange(0, n as int) =~= other.ranges@);
        }
        r
    }

    /// The set holding the numbers common to both sets.
    #[verifier::loop_isolation(false)]
    pub fn intersect(&self, other: &RangeSet) -> (r: RangeSet)
        requires
            self.wf(),
            other.wf(),
        ensures
            r.wf(),
            forall|x: int| r.covers_val(x) <==> self.covers_val(x) && other.covers_val(x),
            forall|m: int| self.bounded(m) ==> r.bounded(m),
    {
        let mut r = RangeSet::empty();
        let n = self.ranges.len();
        let m = other.ranges.len();
        let mut i: usize = 0;
        while i < n
            invariant
                i <= n,
                n == self.ranges.len(),
                m == other.ranges.len(),
                self.wf(),
                other.wf(),
                r.wf(),
                forall|x: int|
                    r.covers_val(x) <==> covers(self.ranges@.subrange(0, i as int), x)
                        && other.covers_val(x),
            decreases n - i,
        {
            let a = self.ranges[i];
            let mut j: usize = 0;
            while j < m
                invariant
                    i < n,
                    j <= m,
                    n == self.ranges.len(),
                    m == other.ranges.len(),
                    self.wf(),
                    other.wf(),
                    r.wf(),
                    a == self.ranges@[i as int],
                    forall|x: int|
                        r.covers_val(x) <==> (covers(self.ranges@.subrange(0, i as int), x)
                            && other.covers_val(x)) || (in_range(a, x) && covers(
                            other.ranges@.subrange(0, j as int),
                            x,
                        )),
                decreases m - j,
            {
                let b = other.ranges[j];
                let ghost pre = other.ranges@.subrange(0, j as int);
                let ghost post = other.ranges@.subrange(0, j as int + 1);
                proof {
                    assert(post =~= pre.push(b));
                    lemma_covers_push(pre, b);
                }
                if a.lo <= b.hi && b.lo <= a.hi {
                    let plo = if a.lo > b.lo { a.lo } else { b.lo };
                    let phi = if a.hi < b.hi { a.hi } else { b.hi };
                    r.add_range(plo, phi);
                }
                proof {
                    assert forall|x: int|
                        r.covers_val(x) <==> (covers(self.ranges@.subrange(0, i as int), x)
                            && other.covers_val(x)) || (in_range(a, x) && covers(post, x)) by {
                        assert(covers(post, x) <==> covers(pre, x) || in_range(b, x));
                        if !(a.lo <= b.hi && b.lo <= a.hi) {
                            assert(!(in_range(a, x) && in_range(b, x)));
                        }
                    }
                }
                j += 1;
            }
            proof {
                assert(other.ranges@.subrange(0, m as int) =~= other.ranges@);
                let ghost spre = self.ranges@.subrange(0, i as int);
                let ghost spost = self.ranges@.subrange(0, i as int + 1);
                assert(spost =~= spre.push(a));
                lemma_covers_push(spre, a);
                assert forall|x: int| covers(other.ranges@, x) <==> other.covers_val(x) by {}
            }
            i += 1;
        }
        proof {
            assert(self.ranges@.subrange(0, n as int) =~= self.ranges@);
            assert forall|mb: int| self.bounded(mb) implies r.bounded(mb) by {
                lemma_bounded_covers(self.ranges@, mb);
                lemma_bounded_covers(r.ranges@, mb);
                assert forall|x: int| covers(r.ranges@, x) implies x <= mb by {
                    assert(r.covers_val(x));
                    assert(covers(self.ranges@.subrange(0, n as int), x));
                    assert(self.covers_val(x));
                }
            }
        }
        r
    }

    /// Structural equality of the two range lists.
    #[verifier::loop_isolation(false)]
    pub fn same_as(&self, other: &RangeSet) -> (b: bool)
        ensures
            b == (self.ranges@ =~= other.ranges@),
    {
        let n = self.ranges.len();
        if n != other.ranges.len() {
            return false;
        }
        let mut i: usize = 0;
        while i < n
            invariant
                i <= n,
                n == self.ranges.len(),
                n == other.ranges.len(),
                forall|k: int| 0 <= k < i ==> self.ranges@[k] == other.ranges@[k],
            decreases n - i,
        {
            if !(self.ranges[i].lo == other.ranges[i].lo && self.ranges[i].hi
                == other.ranges[i].hi) {
                return false;
            }
            i += 1;
        }
        true
    }
}

} // verus!
