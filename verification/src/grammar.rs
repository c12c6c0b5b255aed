//! The textual grammar of resource sets: `ASn` and `ASa-ASb` for AS numbers,
//! dotted quads with `/len` prefixes or `a-b` ranges for IPv4, and hex groups
//! (with one optional `::`) for IPv6. The grammar is written as recursive
//! specification functions; the parsers are proved equal to them.

use vstd::prelude::*;

use crate::ranges::AddrRange;
use crate::text::{
    all_dec, all_hex, dec_val, find_char, hex_val, is_dec_digit, is_hex_digit, lemma_find_char,
    trim,
};

verus! {

/// The three resource families.
#[derive(Clone, Copy, PartialEq, Eq, Structural, Debug)]
pub enum Family {
    Asn,
    V4,
    V6,
}

/// Largest member of a family.
pub open spec fn family_max(f: Family) -> int {
    match f {
        Family::Asn => 0xFFFF_FFFF,
        Family::V4 => 0xFFFF_FFFF,
        Family::V6 => 0xFFFF_FFFF_FFFF_FFFF_FFFF_FFFF_FFFF_FFFF,
    }
}

/// Address width in bits of an IP family.
pub open spec fn family_bits(f: Family) -> int {
    match f {
        Family::Asn => 0,
        Family::V4 => 32,
        Family::V6 => 128,
    }
}

/// `b` to the power `e`.
pub open spec fn spow(b: int, e: nat) -> int
    decreases e,
{
    if e == 0 {
        1
    } else {
        b * spow(b, (e - 1) as nat)
    }
}

pub proof fn lemma_spow_add(b: int, e1: nat, e2: nat)
    ensures
        spow(b, e1 + e2) == spow(b, e1) * spow(b, e2),
    decreases e1,
{
    if e1 == 0 {
        assert(spow(b, e2) == 1 * spow(b, e2));
    } else {
        lemma_spow_add(b, (e1 - 1) as nat, e2);
        assert(spow(b, e1 + e2) == b * spow(b, ((e1 + e2) - 1) as nat));
        assert(spow(b, e1 + e2) == b * (spow(b, (e1 - 1) as nat) * spow(b, e2)));
        assert(b * (spow(b, (e1 - 1) as nat) * spow(b, e2)) == (b * spow(b, (e1 - 1) as nat))
            * spow(b, e2)) by (nonlinear_arith);
    }
}

pub proof fn lemma_spow_pos(b: int, e: nat)
    requires
        b >= 1,
    ensures
        spow(b, e) >= 1,
    decreases e,
{
    if e > 0 {
        lemma_spow_pos(b, (e - 1) as nat);
        assert(b * spow(b, (e - 1) as nat) >= 1) by (nonlinear_arith)
            requires
                b >= 1 && spow(b, (e - 1) as nat) >= 1,
        ;
    }
}

/// The powers of two that the prefix arithmetic needs.
pub proof fn lemma_pow2_values()
    ensures
        spow(2, 8) == 0x100,
        spow(2, 16) == 0x1_0000,
        spow(2, 32) == 0x1_0000_0000,
        spow(2, 64) == 0x1_0000_0000_0000_0000,
        spow(2, 128) == 0x1_0000_0000_0000_0000_0000_0000_0000_0000,
        spow(2, 127) == 0x8000_0000_0000_0000_0000_0000_0000_0000,
        spow(256, 1) == 0x100,
        spow(256, 2) == 0x1_0000,
        spow(256, 3) == 0x100_0000,
        spow(256, 4) == 0x1_0000_0000,
        spow(0x1_0000, 1) == 0x1_0000,
        spow(0x1_0000, 2) == 0x1_0000_0000,
        spow(0x1_0000, 3) == 0x1_0000_0000_0000,
        spow(0x1_0000, 4) == 0x1_0000_0000_0000_0000,
        spow(0x1_0000, 5) == 0x1_0000_0000_0000_0000_0000,
        spow(0x1_0000, 6) == 0x1_0000_0000_0000_0000_0000_0000,
        spow(0x1_0000, 7) == 0x1_0000_0000_0000_0000_0000_0000_0000,
        spow(0x1_0000, 8) == 0x1_0000_0000_0000_0000_0000_0000_0000_0000,
        spow(16, 1) == 16,
        spow(16, 2) == 256,
        spow(16, 3) == 0x1000,
        spow(16, 4) == 0x1_0000,
{
    assert(spow(2, 0) == 1);
    assert(spow(2, 1) == 2);
    lemma_spow_add(2, 1, 1);
    assert(spow(2, 2) == 4);
    lemma_spow_add(2, 2, 2);
    assert(spow(2, 4) == 16);
    lemma_spow_add(2, 4, 4);
    assert(spow(2, 8) == 0x100);
    lemma_spow_add(2, 8, 8);
    assert(spow(2, 16) == 0x1_0000);
    lemma_spow_add(2, 16, 16);
    assert(spow(2, 32) == 0x1_0000_0000);
    lemma_spow_add(2, 32, 32);
    assert(spow(2, 64) == 0x1_0000_0000_0000_0000);
    lemma_spow_add(2, 64, 64);
    assert(spow(2, 128) == 0x1_0000_0000_0000_0000_0000_0000_0000_0000);
    lemma_spow_add(2, 127, 1);
    assert(spow(2, 128) == spow(2, 127) * 2);
    assert(spow(2, 127) == 0x8000_0000_0000_0000_0000_0000_0000_0000);
    assert(spow(256, 0) == 1);
    assert(spow(256, 1) == 256);
    lemma_spow_add(256, 1, 1);
    lemma_spow_add(256, 2, 1);
    lemma_spow_add(256, 3, 1);
    assert(spow(0x1_0000, 0) == 1);
    assert(spow(0x1_0000, 1) == 0x1_0000);
    lemma_spow_add(0x1_0000, 1, 1);
    lemma_spow_add(0x1_0000, 2, 1);
    lemma_spow_add(0x1_0000, 3, 1);
    lemma_spow_add(0x1_0000, 4, 1);
    lemma_spow_add(0x1_0000, 5, 1);
    lemma_spow_add(0x1_0000, 6, 1);
    lemma_spow_add(0x1_0000, 7, 1);
    assert(spow(16, 0) == 1);
    assert(spow(16, 1) == 16);
    lemma_spow_add(16, 1, 1);
    lemma_spow_add(16, 2, 1);
    lemma_spow_add(16, 3, 1);
}

/// Powers of two do not shrink as the exponent grows.
pub proof fn lemma_spow2_le(e1: nat, e2: nat)
    requires
        e1 <= e2,
    ensures
        spow(2, e1) <= spow(2, e2),
        spow(2, e1) >= 1,
{
    lemma_spow_add(2, e1, (e2 - e1) as nat);
    lemma_spow_pos(2, e1);
    lemma_spow_pos(2, (e2 - e1) as nat);
    assert(spow(2, e1) * spow(2, (e2 - e1) as nat) >= spow(2, e1)) by (nonlinear_arith)
        requires
            spow(2, e1) >= 1 && spow(2, (e2 - e1) as nat) >= 1,
    ;
}

/// A hexadecimal numeral of `n` digits stays under `16^n`.
pub proof fn lemma_hex_val_len(s: Seq<char>)
    requires
        all_hex(s),
    ensures
        0 <= hex_val(s) < spow(16, s.len()),
    decreases s.len(),
{
    if s.len() == 0 {
    } else {
        let t = s.drop_last();
        assert(all_hex(t)) by {
            assert(forall|i: int| 0 <= i < t.len() ==> t[i] == s[i]);
        }
        lemma_hex_val_len(t);
        assert(is_hex_digit(s.last()));
        assert(0 <= hex_digit_val_of(s.last()) < 16) by {
        }
        assert(hex_val(t) * 16 + crate::text::hex_digit_val(s.last()) < spow(16, s.len()))
            by (nonlinear_arith)
            requires
                hex_val(t) < spow(16, (s.len() - 1) as nat),
                crate::text::hex_digit_val(s.last()) < 16,
                spow(16, s.len()) == 16 * spow(16, (s.len() - 1) as nat),
        {
        }
    }
}

/// Alias so the lemma above can quantify cleanly.
pub open spec fn hex_digit_val_of(c: char) -> int {
    crate::text::hex_digit_val(c)
}

/// One `ASn` number.
pub open spec fn spec_parse_asn(s: Seq<char>) -> Option<int> {
    if s.len() > 2 && s[0] == 'A' && s[1] == 'S' && all_dec(s.skip(2)) && dec_val(s.skip(2))
        <= 0xFFFF_FFFF {
        Some(dec_val(s.skip(2)))
    } else {
        None
    }
}

/// `k` dot-separated decimal bytes, most significant first.
pub open spec fn spec_parse_v4_groups(s: Seq<char>, k: nat) -> Option<int>
    decreases k,
{
    if k <= 1 {
        if s.len() > 0 && all_dec(s) && dec_val(s) <= 255 {
            Some(dec_val(s))
        } else {
            None
        }
    } else {
        match find_char(s, '.') {
            None => None,
            Some(i) => {
                if 0 <= i < s.len() {
                    let g = s.take(i);
                    if g.len() > 0 && all_dec(g) && dec_val(g) <= 255 {
                        match spec_parse_v4_groups(s.skip(i + 1), (k - 1) as nat) {
                            None => None,
                            Some(rest) => Some(dec_val(g) * spow(256, (k - 1) as nat) + rest),
                        }
                    } else {
                        None
                    }
                } else {
                    None
                }
            },
        }
    }
}

/// A dotted-quad IPv4 address.
pub open spec fn spec_parse_v4_addr(s: Seq<char>) -> Option<int> {
    spec_parse_v4_groups(s, 4)
}

/// The parsed groups stay under `256^k`.
pub proof fn lemma_v4_groups_bound(s: Seq<char>, k: nat)
    requires
        k >= 1,
    ensures
        match spec_parse_v4_groups(s, k) {
            Some(n) => 0 <= n < spow(256, k),
            None => true,
        },
    decreases k,
{
    if k <= 1 {
        if spec_parse_v4_groups(s, k) is Some {
            crate::text::lemma_dec_val_nonneg(s);
            assert(spow(256, 0) == 1);
            assert(spow(256, 1) == 256 * spow(256, 0));
        }
    } else {
        match find_char(s, '.') {
            None => {},
            Some(i) => {
                if 0 <= i < s.len() {
                    lemma_v4_groups_bound(s.skip(i + 1), (k - 1) as nat);
                    let g = s.take(i);
                    if g.len() > 0 && all_dec(g) && dec_val(g) <= 255 {
                        match spec_parse_v4_groups(s.skip(i + 1), (k - 1) as nat) {
                            None => {},
                            Some(rest) => {
                                crate::text::lemma_dec_val_nonneg(g);
                                let m = spow(256, (k - 1) as nat);
                                lemma_spow_pos(256, (k - 1) as nat);
                                assert(dec_val(g) * m + rest < 256 * m) by (nonlinear_arith)
                                    requires
                                        dec_val(g) <= 255,
                                        dec_val(g) >= 0,
                                        0 <= rest < m,
                                ;
                                assert(dec_val(g) * m >= 0) by (nonlinear_arith)
                                    requires
                                        dec_val(g) >= 0 && m >= 1,
                                ;
                                assert(spow(256, k) == 256 * m);
                            },
                        }
                    }
                }
            },
        }
    }
}

/// Value of a sequence of 16-bit groups, most significant first.
pub open spec fn groups_val(gs: Seq<int>) -> int
    decreases gs.len(),
{
    if gs.len() == 0 {
        0
    } else {
        groups_val(gs.drop_last()) * 0x1_0000 + gs.last()
    }
}

/// All groups are 16-bit values.
pub open spec fn groups_ok(gs: Seq<int>) -> bool {
    forall|i: int| 0 <= i < gs.len() ==> 0 <= #[trigger] gs[i] < 0x1_0000
}

pub proof fn lemma_groups_val_bound(gs: Seq<int>)
    requires
        groups_ok(gs),
    ensures
        0 <= groups_val(gs) < spow(0x1_0000, gs.len()),
    decreases gs.len(),
{
    if gs.len() == 0 {
    } else {
        let t = gs.drop_last();
        assert(groups_ok(t)) by {
            assert(forall|i: int| 0 <= i < t.len() ==> t[i] == gs[i]);
        }
        lemma_groups_val_bound(t);
        let m = spow(0x1_0000, (gs.len() - 1) as nat);
        assert(spow(0x1_0000, gs.len()) == 0x1_0000 * m);
        assert(0 <= gs.last() < 0x1_0000);
        assert(groups_val(t) * 0x1_0000 + gs.last() < 0x1_0000 * m && groups_val(t) * 0x1_0000
            + gs.last() >= 0) by (nonlinear_arith)
            requires
                0 <= groups_val(t) < m,
                0 <= gs.last() < 0x1_0000,
        ;
    }
}

/// Prepending a group shifts the value by one power per following group.
pub proof fn lemma_groups_val_cons(g: int, rest: Seq<int>)
    ensures
        groups_val(seq![g] + rest) == g * spow(0x1_0000, rest.len()) + groups_val(rest),
    decreases rest.len(),
{
    let whole = seq![g] + rest;
    if rest.len() == 0 {
        assert(whole =~= seq![g]);
        assert(whole.drop_last() =~= Seq::<int>::empty());
        assert(whole.last() == g);
        assert(groups_val(Seq::<int>::empty()) == 0);
        assert(groups_val(whole) == g);
        assert(spow(0x1_0000, 0) == 1);
    } else {
        assert(whole.drop_last() =~= seq![g] + rest.drop_last());
        lemma_groups_val_cons(g, rest.drop_last());
        let m = spow(0x1_0000, (rest.len() - 1) as nat);
        assert(spow(0x1_0000, rest.len()) == 0x1_0000 * m);
        assert(whole.last() == rest.last());
        assert(groups_val(whole) == (g * m + groups_val(rest.drop_last())) * 0x1_0000
            + rest.last());
        assert((g * m + groups_val(rest.drop_last())) * 0x1_0000 == g * (0x1_0000 * m)
            + groups_val(rest.drop_last()) * 0x1_0000) by (nonlinear_arith);
    }
}

/// A run of zero groups in front contributes nothing.
pub proof fn lemma_groups_val_zeros(z: nat, rest: Seq<int>)
    ensures
        groups_val(Seq::new(z, |i: int| 0) + rest) == groups_val(rest),
    decreases z,
{
    if z == 0 {
        assert(Seq::new(0, |i: int| 0) + rest =~= rest);
    } else {
        let zs = Seq::new(z, |i: int| 0);
        let zs1 = Seq::new((z - 1) as nat, |i: int| 0);
        assert(zs + rest =~= seq![0] + (zs1 + rest));
        lemma_groups_val_cons(0, zs1 + rest);
        lemma_groups_val_zeros((z - 1) as nat, rest);
        assert(0 * spow(0x1_0000, (zs1 + rest).len()) == 0) by (nonlinear_arith);
    }
}

/// Hex groups separated by single colons.
pub open spec fn spec_parse_hex_groups(s: Seq<char>) -> Option<Seq<int>>
    decreases s.len(),
{
    match find_char(s, ':') {
        None => if s.len() > 0 && s.len() <= 4 && all_hex(s) {
            Some(seq![hex_val(s)])
        } else {
            None
        },
        Some(i) => {
            if 0 <= i < s.len() {
                let g = s.take(i);
                if g.len() > 0 && g.len() <= 4 && all_hex(g) {
                    match spec_parse_hex_groups(s.skip(i + 1)) {
                        None => None,
                        Some(rest) => Some(seq![hex_val(g)] + rest),
                    }
                } else {
                    None
                }
            } else {
                None
            }
        },
    }
}

/// Parsed hex groups are 16-bit values.
pub proof fn lemma_hex_groups_ok(s: Seq<char>)
    ensures
        match spec_parse_hex_groups(s) {
            Some(gs) => groups_ok(gs) && gs.len() >= 1,
            None => true,
        },
    decreases s.len(),
{
    lemma_pow2_values();
    match find_char(s, ':') {
        None => {
            if s.len() > 0 && s.len() <= 4 && all_hex(s) {
                lemma_hex_val_len(s);
                lemma_spow16_le4(s.len());
            }
        },
        Some(i) => {
            if 0 <= i < s.len() {
                let g = s.take(i);
                if g.len() > 0 && g.len() <= 4 && all_hex(g) {
                    lemma_hex_groups_ok(s.skip(i + 1));
                    lemma_hex_val_len(g);
                    lemma_spow16_le4(g.len());
                    match spec_parse_hex_groups(s.skip(i + 1)) {
                        None => {},
                        Some(rest) => {
                            let whole = seq![hex_val(g)] + rest;
                            assert(whole[0] == hex_val(g));
                            assert(forall|k: int| 1 <= k < whole.len() ==> whole[k] == rest[k - 1]);
                            assert(groups_ok(whole));
                        },
                    }
                }
            }
        },
    }
}

/// `16^n <= 0x1_0000` for `n <= 4`.
pub proof fn lemma_spow16_le4(n: nat)
    requires
        n <= 4,
    ensures
        spow(16, n) <= 0x1_0000,
{
    lemma_pow2_values();
    assert(spow(16, 0) == 1);
}

/// First position of a double colon.
pub open spec fn find_dc(s: Seq<char>) -> Option<int>
    decreases s.len(),
{
    if s.len() < 2 {
        None
    } else if s[0] == ':' && s[1] == ':' {
        Some(0)
    } else {
        match find_dc(s.drop_first()) {
            None => None,
            Some(i) => Some(i + 1),
        }
    }
}

/// `find_dc` returns the first double colon, or nothing when there is none.
pub proof fn lemma_find_dc(s: Seq<char>)
    ensures
        match find_dc(s) {
            None => forall|j: int|
                #![trigger s[j]]
                0 <= j < s.len() - 1 ==> !(s[j] == ':' && s[j + 1] == ':'),
            Some(i) => 0 <= i < s.len() - 1 && s[i] == ':' && s[i + 1] == ':' && (forall|j: int|
                #![trigger s[j]]
                0 <= j < i ==> !(s[j] == ':' && s[j + 1] == ':')),
        },
    decreases s.len(),
{
    if s.len() >= 2 && !(s[0] == ':' && s[1] == ':') {
        let s1 = s.drop_first();
        lemma_find_dc(s1);
        assert(forall|j: int| 0 <= j < s1.len() ==> s1[j] == s[j + 1]);
        match find_dc(s1) {
            None => {
                assert forall|j: int|
                    #![trigger s[j]]
                    0 <= j < s.len() - 1 implies !(s[j] == ':' && s[j + 1] == ':') by {
                    if j > 0 {
                        assert(!(s1[j - 1] == ':' && s1[j] == ':'));
                    }
                }
            },
            Some(i) => {
                assert(s1[i] == ':' && s1[i + 1] == ':');
                assert(s[i + 1] == ':' && s[i + 2] == ':');
                assert forall|j: int|
                    #![trigger s[j]]
                    0 <= j < i + 1 implies !(s[j] == ':' && s[j + 1] == ':') by {
                    if j > 0 {
                        assert(!(s1[j - 1] == ':' && s1[j] == ':'));
                    }
                }
            },
        }
    }
}

/// An IPv6 address: eight hex groups, or two shorter runs joined by `::`.
pub open spec fn spec_parse_v6_addr(s: Seq<char>) -> Option<int> {
    match find_dc(s) {
        None => match spec_parse_hex_groups(s) {
            Some(g) => if g.len() == 8 {
                Some(groups_val(g))
            } else {
                None
            },
            None => None,
        },
        Some(i) => {
            if 0 <= i <= s.len() - 2 {
                let l = s.take(i);
                let r = s.skip(i + 2);
                let lg = if l.len() == 0 {
                    Some(Seq::<int>::empty())
                } else {
                    spec_parse_hex_groups(l)
                };
                let rg = if r.len() == 0 {
                    Some(Seq::<int>::empty())
                } else {
                    spec_parse_hex_groups(r)
                };
                match (lg, rg) {
                    (Some(lgs), Some(rgs)) => {
                        if lgs.len() + rgs.len() <= 7 {
                            Some(
                                groups_val(
                                    lgs + Seq::new((8 - lgs.len() - rgs.len()) as nat, |i: int| 0)
                                        + rgs,
                                ),
                            )
                        } else {
                            None
                        }
                    },
                    _ => None,
                }
            } else {
                None
            }
        },
    }
}

/// An address of any family.
pub open spec fn spec_parse_addr(f: Family, s: Seq<char>) -> Option<int> {
    match f {
        Family::Asn => spec_parse_asn(s),
        Family::V4 => spec_parse_v4_addr(s),
        Family::V6 => spec_parse_v6_addr(s),
    }
}

/// Any parsed address is within its family's bound.
pub proof fn lemma_parse_addr_bound(f: Family, s: Seq<char>)
    ensures
        match spec_parse_addr(f, s) {
            Some(n) => 0 <= n <= family_max(f),
            None => true,
        },
{
    lemma_pow2_values();
    match f {
        Family::Asn => {
            if spec_parse_asn(s) is Some {
                crate::text::lemma_dec_val_nonneg(s.skip(2));
            }
        },
        Family::V4 => {
            lemma_v4_groups_bound(s, 4);
        },
        Family::V6 => {
            match find_dc(s) {
                None => {
                    lemma_hex_groups_ok(s);
                    match spec_parse_hex_groups(s) {
                        Some(g) => {
                            lemma_groups_val_bound(g);
                        },
                        None => {},
                    }
                },
                Some(i) => {
                    if 0 <= i <= s.len() - 2 {
                        let l = s.take(i);
                        let r = s.skip(i + 2);
                        lemma_hex_groups_ok(l);
                        lemma_hex_groups_ok(r);
                        let lg = if l.len() == 0 {
                            Some(Seq::<int>::empty())
                        } else {
                            spec_parse_hex_groups(l)
                        };
                        let rg = if r.len() == 0 {
                            Some(Seq::<int>::empty())
                        } else {
                            spec_parse_hex_groups(r)
                        };
                        match (lg, rg) {
                            (Some(lgs), Some(rgs)) => {
                                if lgs.len() + rgs.len() <= 7 {
                                    let full = lgs + Seq::new(
                                        (8 - lgs.len() - rgs.len()) as nat,
                                        |i: int| 0,
                                    ) + rgs;
                                    assert(groups_ok(full)) by {
                                        assert(forall|k: int|
                                            0 <= k < lgs.len() ==> full[k] == lgs[k]);
                                        assert(forall|k: int|
                                            lgs.len() <= k < 8 - rgs.len() ==> full[k] == 0);
                                        assert(forall|k: int|
                                            8 - rgs.len() <= k < 8 ==> full[k] == rgs[k - (8
                                                - rgs.len())]);
                                        assert(full.len() == 8);
                                    }
                                    lemma_groups_val_bound(full);
                                }
                            },
                            _ => {},
                        }
                    }
                },
            }
        },
    }
}

/// Concatenation shifts the front part by one power per following group.
pub proof fn lemma_groups_val_concat(a: Seq<int>, b: Seq<int>)
    ensures
        groups_val(a + b) == groups_val(a) * spow(0x1_0000, b.len()) + groups_val(b),
    decreases a.len(),
{
    if a.len() == 0 {
        assert(a + b =~= b);
        assert(groups_val(a) == 0);
        assert(0 * spow(0x1_0000, b.len()) == 0) by (nonlinear_arith);
    } else {
        let a1 = a.drop_first();
        assert(a =~= seq![a[0]] + a1);
        assert(a + b =~= seq![a[0]] + (a1 + b));
        lemma_groups_val_cons(a[0], a1 + b);
        lemma_groups_val_concat(a1, b);
        lemma_groups_val_cons(a[0], a1);
        lemma_spow_add(0x1_0000, a1.len(), b.len());
        let p1 = spow(0x1_0000, a1.len());
        let pb = spow(0x1_0000, b.len());
        assert(groups_val(a + b) == a[0] * (p1 * pb) + (groups_val(a1) * pb + groups_val(b)));
        assert(groups_val(a) == a[0] * p1 + groups_val(a1));
        assert((a[0] * p1 + groups_val(a1)) * pb == a[0] * (p1 * pb) + groups_val(a1) * pb)
            by (nonlinear_arith);
    }
}

/// One textual item of a family: a single number or address, a range
/// `a-b`, or (for the IP families) a prefix `addr/len`.
pub open spec fn spec_parse_item(f: Family, s: Seq<char>) -> Option<AddrRange> {
    if f is Asn {
        match find_char(s, '-') {
            None => match spec_parse_asn(s) {
                Some(n) => Some(AddrRange { lo: n as u128, hi: n as u128 }),
                None => None,
            },
            Some(i) => {
                if 0 <= i < s.len() {
                    match (spec_parse_asn(s.take(i)), spec_parse_asn(s.skip(i + 1))) {
                        (Some(a), Some(b)) => if a <= b {
                            Some(AddrRange { lo: a as u128, hi: b as u128 })
                        } else {
                            None
                        },
                        _ => None,
                    }
                } else {
                    None
                }
            },
        }
    } else {
        match find_char(s, '/') {
            Some(i) => {
                if 0 <= i < s.len() {
                    let t = s.skip(i + 1);
                    let plen = if t.len() > 0 && all_dec(t) && dec_val(t) <= family_bits(f) {
                        Some(dec_val(t))
                    } else {
                        None
                    };
                    match (spec_parse_addr(f, s.take(i)), plen) {
                        (Some(a), Some(l)) => {
                            let sz = spow(2, (family_bits(f) - l) as nat);
                            if a % sz == 0 {
                                Some(AddrRange { lo: a as u128, hi: (a + sz - 1) as u128 })
                            } else {
                                None
                            }
                        },
                        _ => None,
                    }
                } else {
                    None
                }
            },
            None => match find_char(s, '-') {
                None => match spec_parse_addr(f, s) {
                    Some(n) => Some(AddrRange { lo: n as u128, hi: n as u128 }),
                    None => None,
                },
                Some(i) => {
                    if 0 <= i < s.len() {
                        match (spec_parse_addr(f, s.take(i)), spec_parse_addr(f, s.skip(i + 1))) {
                            (Some(a), Some(b)) => if a <= b {
                                Some(AddrRange { lo: a as u128, hi: b as u128 })
                            } else {
                                None
                            },
                            _ => None,
                        }
                    } else {
                        None
                    }
                },
            },
        }
    }
}

/// A comma-separated list of items, each trimmed of surrounding spaces.
pub open spec fn spec_parse_items(f: Family, s: Seq<char>) -> Option<Seq<AddrRange>>
    decreases s.len(),
{
    match find_char(s, ',') {
        None => match spec_parse_item(f, trim(s)) {
            Some(r) => Some(seq![r]),
            None => None,
        },
        Some(i) => {
            if 0 <= i < s.len() {
                match spec_parse_item(f, trim(s.take(i))) {
                    Some(r) => match spec_parse_items(f, s.skip(i + 1)) {
                        Some(rest) => Some(seq![r] + rest),
                        None => None,
                    },
                    None => None,
                }
            } else {
                None
            }
        },
    }
}

/// A whole family expression: blank means the empty set.
pub open spec fn spec_parse_family(f: Family, s: Seq<char>) -> Option<Seq<AddrRange>> {
    if trim(s).len() == 0 {
        Some(Seq::<AddrRange>::empty())
    } else {
        spec_parse_items(f, s)
    }
}

/// Every parsed item is a well-formed range within its family's bound.
pub proof fn lemma_parse_item_ok(f: Family, s: Seq<char>)
    ensures
        match spec_parse_item(f, s) {
            Some(r) => r.lo <= r.hi && r.hi <= family_max(f),
            None => true,
        },
{
    lemma_pow2_values();
    if f is Asn {
        match find_char(s, '-') {
            None => {
                lemma_parse_addr_bound(f, s);
            },
            Some(i) => {
                if 0 <= i < s.len() {
                    lemma_parse_addr_bound(f, s.take(i));
                    lemma_parse_addr_bound(f, s.skip(i + 1));
                }
            },
        }
    } else {
        match find_char(s, '/') {
            Some(i) => {
                if 0 <= i < s.len() {
                    let t = s.skip(i + 1);
                    let plen = if t.len() > 0 && all_dec(t) && dec_val(t) <= family_bits(f) {
                        Some(dec_val(t))
                    } else {
                        None
                    };
                    match (spec_parse_addr(f, s.take(i)), plen) {
                        (Some(a), Some(l)) => {
                            lemma_parse_addr_bound(f, s.take(i));
                            crate::text::lemma_dec_val_nonneg(t);
                            let k = (family_bits(f) - l) as nat;
                            let sz = spow(2, k);
                            lemma_spow_pos(2, k);
                            if a % sz == 0 {
                                lemma_spow_add(2, k, l as nat);
                                assert(spow(2, k + l as nat) == sz * spow(2, l as nat));
                                assert(family_max(f) + 1 == spow(2, family_bits(f) as nat));
                                lemma_spow_pos(2, l as nat);
                                lemma_prefix_fits(a, sz, spow(2, l as nat));
                            }
                        },
                        _ => {},
                    }
                }
            },
            None => {
                match find_char(s, '-') {
                    None => {
                        lemma_parse_addr_bound(f, s);
                    },
                    Some(i) => {
                        if 0 <= i < s.len() {
                            lemma_parse_addr_bound(f, s.take(i));
                            lemma_parse_addr_bound(f, s.skip(i + 1));
                        }
                    },
                }
            },
        }
    }
}

/// An aligned address plus its block size stays inside the address space.
pub proof fn lemma_prefix_fits(addr: int, sz: int, p: int)
    requires
        sz >= 1,
        p >= 1,
        0 <= addr,
        addr < sz * p,
        addr % sz == 0,
    ensures
        addr + sz - 1 < sz * p,
{
    let q = addr / sz;
    vstd::arithmetic::div_mod::lemma_fundamental_div_mod(addr, sz);
    assert(addr == sz * q);
    assert(q < p) by (nonlinear_arith)
        requires
            sz * q < sz * p && sz >= 1,
    ;
    assert(sz * q <= sz * (p - 1)) by (nonlinear_arith)
        requires
            q <= p - 1 && sz >= 0,
    ;
    assert(sz * (p - 1) + sz == sz * p) by (nonlinear_arith);
}

/// `2^k` as a machine word.
#[verifier::loop_isolation(false)]
pub fn pow2_to(k: usize) -> (r: u128)
    requires
        k <= 127,
    ensures
        r as int == spow(2, k as nat),
{
    let mut acc: u128 = 1;
    let mut i: usize = 0;
    while i < k
        invariant
            i <= k,
            acc as int == spow(2, i as nat),
        decreases k - i,
    {
        proof {
            lemma_spow2_le((i + 1) as nat, 127);
            lemma_pow2_values();
            assert(spow(2, (i + 1) as nat) == 2 * spow(2, i as nat));
        }
        acc = acc * 2;
        i += 1;
    }
    acc
}

/// `0x1_0000^e` as a machine word.
pub fn group_mult(e: usize) -> (r: u128)
    requires
        e <= 7,
    ensures
        r as int == spow(0x1_0000, e as nat),
{
    proof {
        lemma_pow2_values();
        assert(spow(0x1_0000, 0) == 1);
    }
    match e {
        0 => 1,
        1 => 0x1_0000,
        2 => 0x1_0000_0000,
        3 => 0x1_0000_0000_0000,
        4 => 0x1_0000_0000_0000_0000,
        5 => 0x1_0000_0000_0000_0000_0000,
        6 => 0x1_0000_0000_0000_0000_0000_0000,
        _ => 0x1_0000_0000_0000_0000_0000_0000_0000,
    }
}

/// Largest member of a family, as a machine word.
pub fn family_max_of(f: Family) -> (r: u128)
    ensures
        r as int == family_max(f),
{
    match f {
        Family::Asn => 0xFFFF_FFFF,
        Family::V4 => 0xFFFF_FFFF,
        Family::V6 => 0xFFFF_FFFF_FFFF_FFFF_FFFF_FFFF_FFFF_FFFF,
    }
}

/// Parses one `ASn` in `v[from..to]`.
pub fn parse_asn_single(v: &Vec<char>, from: usize, to: usize) -> (r: Option<u128>)
    requires
        from <= to <= v@.len(),
    ensures
        ({
            let s = v@.subrange(from as int, to as int);
            match r {
                Some(n) => spec_parse_asn(s) == Some(n as int),
                None => spec_parse_asn(s) is None,
            }
        }),
{
    let ghost s = v@.subrange(from as int, to as int);
    if to - from < 3 {
        return None;
    }
    proof {
        assert(s[0] == v@[from as int]);
        assert(s[1] == v@[from as int + 1]);
    }
    if !(v[from] == 'A' && v[from + 1] == 'S') {
        return None;
    }
    proof {
        assert(s.skip(2) =~= v@.subrange(from as int + 2, to as int));
    }
    match crate::text::parse_dec(v, from + 2, to, 0xFFFF_FFFF) {
        Some(n) => Some(n),
        None => None,
    }
}

/// Parses `k` dot-separated decimal bytes in `v[from..to]`.
pub fn parse_v4_groups(v: &Vec<char>, from: usize, to: usize, k: usize) -> (r: Option<u128>)
    requires
        from <= to <= v@.len(),
        1 <= k <= 4,
    ensures
        ({
            let s = v@.subrange(from as int, to as int);
            match r {
                Some(n) => spec_parse_v4_groups(s, k as nat) == Some(n as int),
                None => spec_parse_v4_groups(s, k as nat) is None,
            }
        }),
    decreases k,
{
    let ghost s = v@.subrange(from as int, to as int);
    if k == 1 {
        return crate::text::parse_dec(v, from, to, 255);
    }
    match crate::text::find_in(v, from, to, '.') {
        None => None,
        Some(i) => {
            proof {
                assert(s.take(i - from) =~= v@.subrange(from as int, i as int));
                assert(s.skip(i - from + 1) =~= v@.subrange(i as int + 1, to as int));
            }
            match crate::text::parse_dec(v, from, i, 255) {
                None => None,
                Some(g) => {
                    match parse_v4_groups(v, i + 1, to, k - 1) {
                        None => None,
                        Some(rest) => {
                            let m: u128 = match k {
                                2 => 256,
                                3 => 0x1_0000,
                                _ => 0x100_0000,
                            };
                            proof {
                                lemma_pow2_values();
                                assert(m as int == spow(256, (k - 1) as nat));
                                lemma_v4_groups_bound(s.skip(i - from + 1), (k - 1) as nat);
                                assert((rest as int) < spow(256, (k - 1) as nat));
                            }
                            Some(g * m + rest)
                        },
                    }
                },
            }
        },
    }
}

/// Finds the first `::` in `v[from..to]`, as an absolute index.
#[verifier::loop_isolation(false)]
pub fn find_dc_in(v: &Vec<char>, from: usize, to: usize) -> (r: Option<usize>)
    requires
        from <= to <= v@.len(),
    ensures
        ({
            let s = v@.subrange(from as int, to as int);
            match r {
                None => find_dc(s) is None,
                Some(i) => from <= i && i + 1 < to && find_dc(s) == Some(i - from),
            }
        }),
{
    let ghost s = v@.subrange(from as int, to as int);
    if to - from < 2 {
        proof {
            lemma_find_dc(s);
            if find_dc(s) is Some {
                let k = find_dc(s)->Some_0;
                assert(0 <= k < s.len() - 1);
            }
        }
        return None;
    }
    let mut i = from;
    while i < to - 1
        invariant
            from <= i <= to,
            forall|j: int|
                #![trigger s[j]]
                0 <= j < i - from ==> !(s[j] == ':' && s[j + 1] == ':'),
        decreases to - i,
    {
        if v[i] == ':' && v[i + 1] == ':' {
            proof {
                assert(s[i - from] == ':' && s[i - from + 1] == ':');
                lemma_find_dc(s);
                match find_dc(s) {
                    None => {
                        assert(false);
                    },
                    Some(k) => {
                        if k < i - from {
                            assert(!(s[k] == ':' && s[k + 1] == ':'));
                            assert(false);
                        }
                        if k > i - from {
                            assert(!(s[i - from] == ':' && s[i - from + 1] == ':'));
                            assert(false);
                        }
                    },
                }
            }
            return Some(i);
        }
        i += 1;
    }
    proof {
        lemma_find_dc(s);
        if find_dc(s) is Some {
            let k = find_dc(s)->Some_0;
            assert(!(s[k] == ':' && s[k + 1] == ':'));
        }
    }
    None
}

/// Parses colon-separated hex groups in `v[from..to]`, returning the combined
/// value and the group count; refuses more than eight groups.
pub fn parse_hex_groups(v: &Vec<char>, from: usize, to: usize) -> (r: Option<(u128, usize)>)
    requires
        from <= to <= v@.len(),
    ensures
        ({
            let s = v@.subrange(from as int, to as int);
            match r {
                Some(p) => spec_parse_hex_groups(s) matches Some(gs) && gs.len() == p.1 && p.1
                    <= 8 && groups_val(gs) == p.0 as int,
                None => spec_parse_hex_groups(s) is None || (spec_parse_hex_groups(s)
                    matches Some(gs) && gs.len() > 8),
            }
        }),
    decreases to - from,
{
    let ghost s = v@.subrange(from as int, to as int);
    match crate::text::find_in(v, from, to, ':') {
        None => {
            if to - from == 0 || to - from > 4 {
                return None;
            }
            match crate::text::parse_hex(v, from, to, 0xFFFF) {
                Some(g) => {
                    proof {
                        let gs = seq![hex_val(s)];
                        assert(gs.drop_last() =~= Seq::<int>::empty());
                        assert(groups_val(Seq::<int>::empty()) == 0);
                        assert(groups_val(gs) == hex_val(s));
                    }
                    Some((g, 1))
                },
                None => {
                    proof {
                        if s.len() > 0 && s.len() <= 4 && all_hex(s) {
                            lemma_hex_val_len(s);
                            lemma_spow16_le4(s.len());
                            assert(false);
                        }
                    }
                    None
                },
            }
        },
        Some(i) => {
            proof {
                assert(s.take(i - from) =~= v@.subrange(from as int, i as int));
                assert(s.skip(i - from + 1) =~= v@.subrange(i as int + 1, to as int));
            }
            let ghost g_seq = s.take(i - from);
            if i == from || i - from > 4 {
                return None;
            }
            match crate::text::parse_hex(v, from, i, 0xFFFF) {
                None => {
                    proof {
                        if g_seq.len() > 0 && g_seq.len() <= 4 && all_hex(g_seq) {
                            lemma_hex_val_len(g_seq);
                            lemma_spow16_le4(g_seq.len());
                            assert(false);
                        }
                    }
                    None
                },
                Some(g) => {
                    match parse_hex_groups(v, i + 1, to) {
                        None => None,
                        Some((rv, rc)) => {
                            if rc >= 8 {
                                return None;
                            }
                            let m = group_mult(rc);
                            proof {
                                let rest_gs = spec_parse_hex_groups(s.skip(i - from + 1))->Some_0;
                                lemma_hex_groups_ok(s.skip(i - from + 1));
                                lemma_groups_val_bound(rest_gs);
                                lemma_groups_val_cons(hex_val(g_seq), rest_gs);
                                assert((rv as int) < spow(0x1_0000, rc as nat));
                                lemma_pow2_values();
                                assert(spow(0x1_0000, (rc + 1) as nat) == 0x1_0000 * spow(
                                    0x1_0000,
                                    rc as nat,
                                ));
                                assert(g as int * (m as int) + (rv as int) < 0x1_0000 * (m as int))
                                    by (nonlinear_arith)
                                    requires
                                        g as int <= 0xFFFF,
                                        0 <= g as int,
                                        0 <= rv as int && (rv as int) < m as int,
                                ;
                                lemma_spowB_le((rc + 1) as nat, 8);
                                assert(g as int * (m as int) >= 0) by (nonlinear_arith)
                                    requires
                                        g as int >= 0 && m as int >= 0,
                                ;
                            }
                            Some((g * m + rv, rc + 1))
                        },
                    }
                },
            }
        },
    }
}

/// `0x1_0000^e` grows with `e`.
pub proof fn lemma_spowB_le(e1: nat, e2: nat)
    requires
        e1 <= e2,
    ensures
        spow(0x1_0000, e1) <= spow(0x1_0000, e2),
        spow(0x1_0000, e1) >= 1,
{
    lemma_spow_add(0x1_0000, e1, (e2 - e1) as nat);
    lemma_spow_pos(0x1_0000, e1);
    lemma_spow_pos(0x1_0000, (e2 - e1) as nat);
    assert(spow(0x1_0000, e1) * spow(0x1_0000, (e2 - e1) as nat) >= spow(0x1_0000, e1))
        by (nonlinear_arith)
        requires
            spow(0x1_0000, e1) >= 1 && spow(0x1_0000, (e2 - e1) as nat) >= 1,
    ;
}

/// Parses an IPv6 address in `v[from..to]`.
pub fn parse_v6_addr(v: &Vec<char>, from: usize, to: usize) -> (r: Option<u128>)
    requires
        from <= to <= v@.len(),
    ensures
        ({
            let s = v@.subrange(from as int, to as int);
            match r {
                Some(n) => spec_parse_v6_addr(s) == Some(n as int),
                None => spec_parse_v6_addr(s) is None,
            }
        }),
{
    let ghost s = v@.subrange(from as int, to as int);
    match find_dc_in(v, from, to) {
        None => {
            match parse_hex_groups(v, from, to) {
                Some((val, cnt)) => {
                    if cnt == 8 {
                        Some(val)
                    } else {
                        None
                    }
                },
                None => None,
            }
        },
        Some(i) => {
            proof {
                assert(s.take(i - from) =~= v@.subrange(from as int, i as int));
                assert(s.skip(i - from + 2) =~= v@.subrange(i as int + 2, to as int));
            }
            let ghost l = s.take(i - from);
            let ghost r_ = s.skip(i - from + 2);
            let lres: Option<(u128, usize)> = if i == from {
                Some((0, 0))
            } else {
                parse_hex_groups(v, from, i)
            };
            let rres: Option<(u128, usize)> = if i + 2 == to {
                Some((0, 0))
            } else {
                parse_hex_groups(v, i + 2, to)
            };
            proof {
                assert(groups_val(Seq::<int>::empty()) == 0);
            }
            match (lres, rres) {
                (Some((lv, lc)), Some((rv, rc))) => {
                    if lc + rc > 7 {
                        return None;
                    }
                    let ghost lgs = if l.len() == 0 {
                        Seq::<int>::empty()
                    } else {
                        spec_parse_hex_groups(l)->Some_0
                    };
                    let ghost rgs = if r_.len() == 0 {
                        Seq::<int>::empty()
                    } else {
                        spec_parse_hex_groups(r_)->Some_0
                    };
                    let ghost z = (8 - lc - rc) as nat;
                    let ghost zeros = Seq::new(z, |x: int| 0);
                    proof {
                        lemma_groups_val_zeros(z, rgs);
                        lemma_groups_val_concat(lgs, zeros + rgs);
                        assert(lgs + zeros + rgs =~= lgs + (zeros + rgs));
                        assert((zeros + rgs).len() == z + rc);
                        if l.len() > 0 {
                            lemma_hex_groups_ok(l);
                            lemma_groups_val_bound(lgs);
                        }
                        assert(groups_val(lgs + zeros + rgs) == lv as int * spow(
                            0x1_0000,
                            (8 - lc) as nat,
                        ) + rv as int);
                    }
                    if lc == 0 {
                        proof {
                            assert(lv == 0);
                            assert(0 * spow(0x1_0000, 8) == 0) by (nonlinear_arith);
                        }
                        Some(rv)
                    } else {
                        let m = group_mult(8 - lc);
                        proof {
                            lemma_pow2_values();
                            lemma_spow_add(0x1_0000, lc as nat, (8 - lc) as nat);
                            lemma_spowB_le(rc as nat, (8 - lc - 1) as nat);
                            lemma_spow_add(0x1_0000, (8 - lc - 1) as nat, 1);
                            if r_.len() > 0 {
                                lemma_hex_groups_ok(r_);
                                lemma_groups_val_bound(rgs);
                            }
                            assert((rv as int) < spow(0x1_0000, (8 - lc) as nat)) by {
                                if rc == 0 {
                                    lemma_spowB_le(0, (8 - lc) as nat);
                                    assert(spow(0x1_0000, 0) == 1);
                                } else {
                                    assert((rv as int) < spow(0x1_0000, rc as nat));
                                    lemma_spowB_le(rc as nat, (8 - lc) as nat);
                                }
                            }
                            assert(lv as int * (m as int) + (rv as int) < spow(0x1_0000, 8))
                                by (nonlinear_arith)
                                requires
                                    0 <= lv as int,
                                    (lv as int) < spow(0x1_0000, lc as nat),
                                    0 <= rv as int && (rv as int) < m as int,
                                    m as int == spow(0x1_0000, (8 - lc) as nat),
                                    spow(0x1_0000, 8) == spow(0x1_0000, lc as nat) * (m as int),
                            ;
                            assert(lv as int * (m as int) >= 0) by (nonlinear_arith)
                                requires
                                    lv as int >= 0 && m as int >= 0,
                            ;
                        }
                        Some(lv * m + rv)
                    }
                },
                _ => None,
            }
        },
    }
}

/// Parses one address of the given family in `v[from..to]`.
pub fn parse_addr(f: Family, v: &Vec<char>, from: usize, to: usize) -> (r: Option<u128>)
    requires
        from <= to <= v@.len(),
    ensures
        ({
            let s = v@.subrange(from as int, to as int);
            match r {
                Some(n) => spec_parse_addr(f, s) == Some(n as int) && n as int <= family_max(f),
                None => spec_parse_addr(f, s) is None,
            }
        }),
{
    proof {
        lemma_parse_addr_bound(f, v@.subrange(from as int, to as int));
    }
    match f {
        Family::Asn => parse_asn_single(v, from, to),
        Family::V4 => parse_v4_groups(v, from, to, 4),
        Family::V6 => parse_v6_addr(v, from, to),
    }
}

/// Parses one item (number, range, or prefix) in `v[from..to]`.
pub fn parse_item(f: Family, v: &Vec<char>, from: usize, to: usize) -> (r: Option<AddrRange>)
    requires
        from <= to <= v@.len(),
    ensures
        r == spec_parse_item(f, v@.subrange(from as int, to as int)),
{
    let ghost s = v@.subrange(from as int, to as int);
    match f {
        Family::Asn => {
            match crate::text::find_in(v, from, to, '-') {
                None => {
                    match parse_asn_single(v, from, to) {
                        Some(n) => Some(AddrRange { lo: n, hi: n }),
                        None => None,
                    }
                },
                Some(i) => {
                    proof {
                        assert(s.take(i - from) =~= v@.subrange(from as int, i as int));
                        assert(s.skip(i - from + 1) =~= v@.subrange(i as int + 1, to as int));
                    }
                    match (parse_asn_single(v, from, i), parse_asn_single(v, i + 1, to)) {
                        (Some(a), Some(b)) => {
                            if a <= b {
                                Some(AddrRange { lo: a, hi: b })
                            } else {
                                None
                            }
                        },
                        _ => None,
                    }
                },
            }
        },
        _ => {
            let bits: u128 = if matches!(f, Family::V4) {
                32
            } else {
                128
            };
            match crate::text::find_in(v, from, to, '/') {
                Some(i) => {
                    proof {
                        assert(s.take(i - from) =~= v@.subrange(from as int, i as int));
                        assert(s.skip(i - from + 1) =~= v@.subrange(i as int + 1, to as int));
                    }
                    let plen = match crate::text::parse_dec(v, i + 1, to, bits) {
                        None => {
                            return None;
                        },
                        Some(l) => l,
                    };
                    let addr = match parse_addr(f, v, from, i) {
                        None => {
                            return None;
                        },
                        Some(a) => a,
                    };
                    let ghost szg = spow(2, (family_bits(f) - plen) as nat);
                    if plen == 0 {
                        proof {
                            lemma_pow2_values();
                            vstd::arithmetic::div_mod::lemma_small_mod(
                                addr as nat,
                                szg as nat,
                            );
                        }
                        if addr == 0 {
                            let hi = family_max_of(f);
                            proof {
                                assert(addr as int % szg == 0);
                                assert((addr as int + szg - 1) as u128 == hi);
                            }
                            Some(AddrRange { lo: 0, hi })
                        } else {
                            proof {
                                assert(addr as int % szg == addr as int);
                            }
                            None
                        }
                    } else {
                        let k = (bits - plen) as usize;
                        proof {
                            lemma_pow2_values();
                        }
                        let sz = pow2_to(k);
                        proof {
                            assert(sz as int == szg);
                            lemma_spow_pos(2, (family_bits(f) - plen) as nat);
                        }
                        if addr % sz == 0 {
                            proof {
                                lemma_spow_add(
                                    2,
                                    (family_bits(f) - plen) as nat,
                                    plen as nat,
                                );
                                lemma_spow_pos(2, plen as nat);
                                assert(family_max(f) + 1 == spow(2, family_bits(f) as nat));
                                lemma_prefix_fits(addr as int, szg, spow(2, plen as nat));
                                assert(addr as int + szg - 1 <= family_max(f));
                            }
                            Some(AddrRange { lo: addr, hi: addr + (sz - 1) })
                        } else {
                            None
                        }
                    }
                },
                None => {
                    match crate::text::find_in(v, from, to, '-') {
                        None => {
                            match parse_addr(f, v, from, to) {
                                Some(n) => Some(AddrRange { lo: n, hi: n }),
                                None => None,
                            }
                        },
                        Some(i) => {
                            proof {
                                assert(s.take(i - from) =~= v@.subrange(from as int, i as int));
                                assert(s.skip(i - from + 1) =~= v@.subrange(
                                    i as int + 1,
                                    to as int,
                                ));
                            }
                            match (parse_addr(f, v, from, i), parse_addr(f, v, i + 1, to)) {
                                (Some(a), Some(b)) => {
                                    if a <= b {
                                        Some(AddrRange { lo: a, hi: b })
                                    } else {
                                        None
                                    }
                                },
                                _ => None,
                            }
                        },
                    }
                },
            }
        },
    }
}

/// Parses a comma-separated list of items in `v[from..to]`.
pub fn parse_items(f: Family, v: &Vec<char>, from: usize, to: usize) -> (r: Option<
    Vec<AddrRange>,
>)
    requires
        from <= to <= v@.len(),
    ensures
        ({
            let s = v@.subrange(from as int, to as int);
            match r {
                Some(w) => spec_parse_items(f, s) == Some(w@),
                None => spec_parse_items(f, s) is None,
            }
        }),
    decreases to - from,
{
    let ghost s = v@.subrange(from as int, to as int);
    match crate::text::find_in(v, from, to, ',') {
        None => {
            let (a, b) = crate::text::trim_bounds(v, from, to);
            match parse_item(f, v, a, b) {
                Some(rng) => {
                    let mut w: Vec<AddrRange> = Vec::new();
                    w.push(rng);
                    proof {
                        assert(w@ =~= seq![rng]);
                    }
                    Some(w)
                },
                None => None,
            }
        },
        Some(i) => {
            proof {
                assert(s.take(i - from) =~= v@.subrange(from as int, i as int));
                assert(s.skip(i - from + 1) =~= v@.subrange(i as int + 1, to as int));
            }
            let (a, b) = crate::text::trim_bounds(v, from, i);
            match parse_item(f, v, a, b) {
                None => None,
                Some(rng) => {
                    match parse_items(f, v, i + 1, to) {
                        None => None,
                        Some(rest) => {
                            let mut w: Vec<AddrRange> = Vec::new();
                            w.push(rng);
                            let n = rest.len();
                            let mut j: usize = 0;
                            while j < n
                                invariant
                                    j <= n,
                                    n == rest.len(),
                                    w@ =~= seq![rng] + rest@.subrange(0, j as int),
                                decreases n - j,
                            {
                                w.push(rest[j]);
                                proof {
                                    assert(rest@.subrange(0, j as int + 1) =~= rest@.subrange(
                                        0,
                                        j as int,
                                    ).push(rest@[j as int]));
                                }
                                j += 1;
                            }
                            proof {
                                assert(rest@.subrange(0, n as int) =~= rest@);
                                assert(w@ =~= seq![rng] + rest@);
                            }
                            Some(w)
                        },
                    }
                },
            }
        },
    }
}

/// Parses a whole family expression; blank text means the empty set.
pub fn parse_family(f: Family, v: &Vec<char>) -> (r: Option<Vec<AddrRange>>)
    ensures
        ({
            match r {
                Some(w) => spec_parse_family(f, v@) == Some(w@),
                None => spec_parse_family(f, v@) is None,
            }
        }),
{
    proof {
        assert(v@.subrange(0, v@.len() as int) =~= v@);
    }
    let (a, b) = crate::text::trim_bounds(v, 0, v.len());
    if a == b {
        let w: Vec<AddrRange> = Vec::new();
        proof {
            assert(w@ =~= Seq::<AddrRange>::empty());
        }
        Some(w)
    } else {
        parse_items(f, v, 0, v.len())
    }
}

/// Every range of a parsed list is well-formed and within the family bound.
pub proof fn lemma_parse_items_ok(f: Family, s: Seq<char>)
    ensures
        match spec_parse_items(f, s) {
            Some(ps) => forall|i: int|
                0 <= i < ps.len() ==> (#[trigger] ps[i]).lo <= ps[i].hi && ps[i].hi <= family_max(
                    f,
                ),
            None => true,
        },
    decreases s.len(),
{
    match find_char(s, ',') {
        None => {
            lemma_parse_item_ok(f, trim(s));
            match spec_parse_item(f, trim(s)) {
                Some(r) => {
                    assert(seq![r][0] == r);
                },
                None => {},
            }
        },
        Some(i) => {
            if 0 <= i < s.len() {
                lemma_parse_item_ok(f, trim(s.take(i)));
                lemma_parse_items_ok(f, s.skip(i + 1));
                match spec_parse_item(f, trim(s.take(i))) {
                    Some(r) => {
                        match spec_parse_items(f, s.skip(i + 1)) {
                            Some(rest) => {
                                let whole = seq![r] + rest;
                                assert(whole[0] == r);
                                assert(forall|k: int|
                                    1 <= k < whole.len() ==> whole[k] == rest[k - 1]);
                            },
                            None => {},
                        }
                    },
                    None => {},
                }
            }
        },
    }
}

/// Same for a whole family expression.
pub proof fn lemma_parse_family_ok(f: Family, s: Seq<char>)
    ensures
        match spec_parse_family(f, s) {
            Some(ps) => forall|i: int|
                0 <= i < ps.len() ==> (#[trigger] ps[i]).lo <= ps[i].hi && ps[i].hi <= family_max(
                    f,
                ),
            None => true,
        },
{
    if trim(s).len() != 0 {
        lemma_parse_items_ok(f, s);
    }
}

/// Canonical text of one address: `ASn`, a dotted quad, or eight hex groups.
pub open spec fn ser_addr(f: Family, n: int) -> Seq<char> {
    match f {
        Family::Asn => seq!['A', 'S'] + crate::text::dec_str(n),
        Family::V4 => {
            let b0 = n / 0x100_0000;
            let r0 = n % 0x100_0000;
            let b1 = r0 / 0x1_0000;
            let r1 = r0 % 0x1_0000;
            let b2 = r1 / 0x100;
            let b3 = r1 % 0x100;
            crate::text::dec_str(b0) + seq!['.'] + crate::text::dec_str(b1) + seq!['.']
                + crate::text::dec_str(b2) + seq!['.'] + crate::text::dec_str(b3)
        },
        Family::V6 => {
            let g0 = n / 0x1_0000_0000_0000_0000_0000_0000_0000;
            let r0 = n % 0x1_0000_0000_0000_0000_0000_0000_0000;
            let g1 = r0 / 0x1_0000_0000_0000_0000_0000_0000;
            let r1 = r0 % 0x1_0000_0000_0000_0000_0000_0000;
            let g2 = r1 / 0x1_0000_0000_0000_0000_0000;
            let r2 = r1 % 0x1_0000_0000_0000_0000_0000;
            let g3 = r2 / 0x1_0000_0000_0000_0000;
            let r3 = r2 % 0x1_0000_0000_0000_0000;
            let g4 = r3 / 0x1_0000_0000_0000;
            let r4 = r3 % 0x1_0000_0000_0000;
            let g5 = r4 / 0x1_0000_0000;
            let r5 = r4 % 0x1_0000_0000;
            let g6 = r5 / 0x1_0000;
            let g7 = r5 % 0x1_0000;
            crate::text::hex_str(g0) + seq![':'] + crate::text::hex_str(g1) + seq![':']
                + crate::text::hex_str(g2) + seq![':'] + crate::text::hex_str(g3) + seq![':']
                + crate::text::hex_str(g4) + seq![':'] + crate::text::hex_str(g5) + seq![':']
                + crate::text::hex_str(g6) + seq![':'] + crate::text::hex_str(g7)
        },
    }
}

/// Canonical text of one range: a single address, or `lo-hi`.
pub open spec fn ser_item(f: Family, r: AddrRange) -> Seq<char> {
    if r.lo == r.hi {
        ser_addr(f, r.lo as int)
    } else {
        ser_addr(f, r.lo as int) + seq!['-'] + ser_addr(f, r.hi as int)
    }
}

/// Canonical text of a range list: items joined by commas; blank for the
/// empty set.
pub open spec fn ser_items(f: Family, s: Seq<AddrRange>) -> Seq<char>
    decreases s.len(),
{
    if s.len() == 0 {
        Seq::<char>::empty()
    } else if s.len() == 1 {
        ser_item(f, s[0])
    } else {
        ser_item(f, s[0]) + seq![','] + ser_items(f, s.drop_first())
    }
}

/// Writes the canonical text of one address onto `out`.
#[verifier::rlimit(100)]
pub fn push_addr(f: Family, out: &mut Vec<char>, n: u128)
    requires
        n as int <= family_max(f),
    ensures
        final(out)@ == old(out)@ + ser_addr(f, n as int),
{
    match f {
        Family::Asn => {
            out.push('A');
            out.push('S');
            crate::text::push_dec(out, n);
            proof {
                assert(final(out)@ =~= old(out)@ + ser_addr(f, n as int));
            }
        },
        Family::V4 => {
            let b0 = n / 0x100_0000;
            let r0 = n % 0x100_0000;
            let b1 = r0 / 0x1_0000;
            let r1 = r0 % 0x1_0000;
            let b2 = r1 / 0x100;
            let b3 = r1 % 0x100;
            crate::text::push_dec(out, b0);
            out.push('.');
            crate::text::push_dec(out, b1);
            out.push('.');
            crate::text::push_dec(out, b2);
            out.push('.');
            crate::text::push_dec(out, b3);
            proof {
                assert(final(out)@ =~= old(out)@ + ser_addr(f, n as int));
            }
        },
        Family::V6 => {
            let g0 = n / 0x1_0000_0000_0000_0000_0000_0000_0000;
            let r0 = n % 0x1_0000_0000_0000_0000_0000_0000_0000;
            let g1 = r0 / 0x1_0000_0000_0000_0000_0000_0000;
            let r1 = r0 % 0x1_0000_0000_0000_0000_0000_0000;
            let g2 = r1 / 0x1_0000_0000_0000_0000_0000;
            let r2 = r1 % 0x1_0000_0000_0000_0000_0000;
            let g3 = r2 / 0x1_0000_0000_0000_0000;
            let r3 = r2 % 0x1_0000_0000_0000_0000;
            let g4 = r3 / 0x1_0000_0000_0000;
            let r4 = r3 % 0x1_0000_0000_0000;
            let g5 = r4 / 0x1_0000_0000;
            let r5 = r4 % 0x1_0000_0000;
            let g6 = r5 / 0x1_0000;
            let g7 = r5 % 0x1_0000;
            crate::text::push_hex(out, g0);
            out.push(':');
            crate::text::push_hex(out, g1);
            out.push(':');
            crate::text::push_hex(out, g2);
            out.push(':');
            crate::text::push_hex(out, g3);
            out.push(':');
            crate::text::push_hex(out, g4);
            out.push(':');
            crate::text::push_hex(out, g5);
            out.push(':');
            crate::text::push_hex(out, g6);
            out.push(':');
            crate::text::push_hex(out, g7);
            proof {
                assert(final(out)@ =~= old(out)@ + ser_addr(f, n as int));
            }
        },
    }
}

/// Writes the canonical text of one range onto `out`.
pub fn push_item(f: Family, out: &mut Vec<char>, r: AddrRange)
    requires
        r.lo <= r.hi,
        r.hi as int <= family_max(f),
    ensures
        final(out)@ == old(out)@ + ser_item(f, r),
{
    if r.lo == r.hi {
        push_addr(f, out, r.lo);
    } else {
        push_addr(f, out, r.lo);
        out.push('-');
        push_addr(f, out, r.hi);
        proof {
            assert(final(out)@ =~= old(out)@ + ser_item(f, r));
        }
    }
}

/// Writes the canonical text of the ranges from `from` on onto `out`.
pub fn push_items(f: Family, out: &mut Vec<char>, v: &Vec<AddrRange>, from: usize)
    requires
        from <= v@.len(),
        forall|i: int|
            from <= i < v@.len() ==> (#[trigger] v@[i]).lo <= v@[i].hi && v@[i].hi as int
                <= family_max(f),
    ensures
        final(out)@ == old(out)@ + ser_items(f, v@.skip(from as int)),
    decreases v@.len() - from,
{
    let n = v.len();
    if from == n {
        proof {
            assert(v@.skip(from as int) =~= Seq::<AddrRange>::empty());
            assert(final(out)@ =~= old(out)@ + Seq::<char>::empty());
        }
        return ;
    }
    proof {
        assert(v@.skip(from as int)[0] == v@[from as int]);
    }
    push_item(f, out, v[from]);
    if from + 1 < n {
        out.push(',');
        push_items(f, out, v, from + 1);
        proof {
            assert(v@.skip(from as int).drop_first() =~= v@.skip(from as int + 1));
            assert(final(out)@ =~= old(out)@ + ser_items(f, v@.skip(from as int)));
        }
    } else {
        proof {
            assert(v@.skip(from as int).len() == 1);
            assert(final(out)@ =~= old(out)@ + ser_items(f, v@.skip(from as int)));
        }
    }
}

/// `find_char` computed from a witness: the first occurrence determines it.
pub proof fn lemma_find_char_is(s: Seq<char>, c: char, i: int)
    requires
        0 <= i < s.len(),
        s[i] == c,
        forall|j: int| 0 <= j < i ==> s[j] != c,
    ensures
        find_char(s, c) == Some(i),
{
    lemma_find_char(s, c);
    match find_char(s, c) {
        None => {
            assert(s[i] != c);
        },
        Some(k) => {
            if k < i {
                assert(s[k] != c);
            }
            if k > i {
                assert(s[i] != c);
            }
        },
    }
}

/// The canonical decimal numeral holds digits only, never a separator.
pub proof fn lemma_dec_str_no(n: int, c: char)
    requires
        n >= 0,
        !is_dec_digit(c),
    ensures
        forall|j: int| 0 <= j < crate::text::dec_str(n).len() ==> crate::text::dec_str(n)[j] != c,
{
    crate::text::lemma_dec_str_val(n);
    assert forall|j: int| 0 <= j < crate::text::dec_str(n).len() implies crate::text::dec_str(n)[j]
        != c by {
        assert(is_dec_digit(crate::text::dec_str(n)[j]));
    }
}

/// Parsing the canonical text of an AS number gives that number back.
pub proof fn lemma_parse_ser_asn(n: int)
    requires
        0 <= n <= 0xFFFF_FFFF,
    ensures
        spec_parse_asn(ser_addr(Family::Asn, n)) == Some(n),
{
    let s = ser_addr(Family::Asn, n);
    crate::text::lemma_dec_str_val(n);
    assert(s.len() > 2);
    assert(s[0] == 'A' && s[1] == 'S');
    assert(s.skip(2) =~= crate::text::dec_str(n));
}

/// Parsing the canonical text of one AS range gives that range back.
#[verifier::rlimit(100)]
#[verifier::spinoff_prover]
pub proof fn lemma_parse_ser_asn_item(r: AddrRange)
    requires
        r.lo <= r.hi,
        r.hi as int <= family_max(Family::Asn),
    ensures
        spec_parse_item(Family::Asn, ser_item(Family::Asn, r)) == Some(r),
{
    let s = ser_item(Family::Asn, r);
    crate::text::lemma_dec_val_nonneg(Seq::<char>::empty());
    if r.lo == r.hi {
        lemma_parse_ser_asn(r.lo as int);
        assert(s == ser_addr(Family::Asn, r.lo as int));
        lemma_dec_str_no(r.lo as int, '-');
        lemma_find_char(s, '-');
        match find_char(s, '-') {
            None => {
                assert(spec_parse_item(Family::Asn, s) == Some(r));
            },
            Some(k) => {
                assert(s[k] == '-');
                if k >= 2 {
                    assert(s[k] == crate::text::dec_str(r.lo as int)[k - 2]);
                }
                assert(false);
            },
        }
    } else {
        let lo_t = ser_addr(Family::Asn, r.lo as int);
        let hi_t = ser_addr(Family::Asn, r.hi as int);
        crate::text::lemma_dec_str_val(r.lo as int);
        crate::text::lemma_dec_str_val(r.hi as int);
        assert(s =~= lo_t + seq!['-'] + hi_t);
        lemma_dec_str_no(r.lo as int, '-');
        assert forall|j: int| 0 <= j < lo_t.len() implies s[j] != '-' by {
            if j >= 2 {
                assert(s[j] == crate::text::dec_str(r.lo as int)[j - 2]);
            }
        }
        assert(s[lo_t.len() as int] == '-');
        lemma_find_char_is(s, '-', lo_t.len() as int);
        assert(s.take(lo_t.len() as int) =~= lo_t);
        assert(s.skip(lo_t.len() as int + 1) =~= hi_t);
        lemma_parse_ser_asn(r.lo as int);
        lemma_parse_ser_asn(r.hi as int);
        assert(spec_parse_item(Family::Asn, s) == Some(r));
    }
}

/// Canonical AS-number text has no comma and no space, and is never blank.
pub proof fn lemma_ser_asn_item_chars(r: AddrRange)
    requires
        r.lo <= r.hi,
        r.hi as int <= family_max(Family::Asn),
    ensures
        ser_item(Family::Asn, r).len() > 0,
        forall|j: int|
            0 <= j < ser_item(Family::Asn, r).len() ==> ser_item(Family::Asn, r)[j] != ','
                && ser_item(Family::Asn, r)[j] != ' ',
{
    let s = ser_item(Family::Asn, r);
    crate::text::lemma_dec_str_val(r.lo as int);
    crate::text::lemma_dec_str_val(r.hi as int);
    lemma_dec_str_no(r.lo as int, ',');
    lemma_dec_str_no(r.hi as int, ',');
    lemma_dec_str_no(r.lo as int, ' ');
    lemma_dec_str_no(r.hi as int, ' ');
    let lo_t = ser_addr(Family::Asn, r.lo as int);
    let hi_t = ser_addr(Family::Asn, r.hi as int);
    assert forall|j: int| 0 <= j < s.len() implies s[j] != ',' && s[j] != ' ' by {
        if r.lo == r.hi {
            if j >= 2 {
                assert(s[j] == crate::text::dec_str(r.lo as int)[j - 2]);
            }
        } else {
            assert(s =~= lo_t + seq!['-'] + hi_t);
            if 2 <= j < lo_t.len() {
                assert(s[j] == crate::text::dec_str(r.lo as int)[j - 2]);
            } else if j > lo_t.len() as int + 2 {
                assert(s[j] == crate::text::dec_str(r.hi as int)[j - (lo_t.len() + 3)]);
            } else if j == lo_t.len() as int + 1 || j == lo_t.len() as int + 2 {
                assert(s[j] == hi_t[j - (lo_t.len() + 1)]);
            }
        }
    }
}

/// Untouched text trims to itself.
pub proof fn lemma_trim_id(s: Seq<char>)
    requires
        forall|j: int| 0 <= j < s.len() ==> s[j] != ' ',
    ensures
        trim(s) == s,
{
    if s.len() > 0 {
        assert(s[0] != ' ');
        assert(s.last() != ' ');
    }
    assert(crate::text::trim_front(s) == s);
    assert(crate::text::trim_back(s) == s);
}

/// Two canonical bytes joined by a dot parse as two groups.
proof fn lemma_v4_two_groups(b2: int, b3: int)
    requires
        0 <= b2 <= 255,
        0 <= b3 <= 255,
    ensures
        spec_parse_v4_groups(
            crate::text::dec_str(b2) + seq!['.'] + crate::text::dec_str(b3),
            2,
        ) == Some(b2 * spow(256, 1) + b3),
{
    lemma_pow2_values();
    let d2 = crate::text::dec_str(b2);
    let d3 = crate::text::dec_str(b3);
    crate::text::lemma_dec_str_val(b2);
    crate::text::lemma_dec_str_val(b3);
    lemma_dec_str_no(b2, '.');
    assert(spec_parse_v4_groups(d3, 1) == Some(b3));
    let s2 = d2 + seq!['.'] + d3;
    assert forall|j: int| 0 <= j < d2.len() implies s2[j] != '.' by {
        assert(s2[j] == d2[j]);
    }
    assert(s2[d2.len() as int] == '.');
    lemma_find_char_is(s2, '.', d2.len() as int);
    assert(s2.take(d2.len() as int) =~= d2);
    assert(s2.skip(d2.len() as int + 1) =~= d3);
}

/// Three canonical bytes joined by dots parse as three groups.
proof fn lemma_v4_three_groups(b1: int, b2: int, b3: int)
    requires
        0 <= b1 <= 255,
        0 <= b2 <= 255,
        0 <= b3 <= 255,
    ensures
        spec_parse_v4_groups(
            crate::text::dec_str(b1) + seq!['.'] + (crate::text::dec_str(b2) + seq!['.']
                + crate::text::dec_str(b3)),
            3,
        ) == Some(b1 * spow(256, 2) + (b2 * spow(256, 1) + b3)),
{
    lemma_pow2_values();
    let d1 = crate::text::dec_str(b1);
    let s2 = crate::text::dec_str(b2) + seq!['.'] + crate::text::dec_str(b3);
    crate::text::lemma_dec_str_val(b1);
    lemma_dec_str_no(b1, '.');
    lemma_v4_two_groups(b2, b3);
    let s1 = d1 + seq!['.'] + s2;
    assert forall|j: int| 0 <= j < d1.len() implies s1[j] != '.' by {
        assert(s1[j] == d1[j]);
    }
    assert(s1[d1.len() as int] == '.');
    lemma_find_char_is(s1, '.', d1.len() as int);
    assert(s1.take(d1.len() as int) =~= d1);
    assert(s1.skip(d1.len() as int + 1) =~= s2);
}

/// Parsing the canonical dotted quad of an IPv4 address gives it back.
#[verifier::rlimit(100)]
#[verifier::spinoff_prover]
pub proof fn lemma_parse_ser_v4(n: int)
    requires
        0 <= n <= 0xFFFF_FFFF,
    ensures
        spec_parse_v4_addr(ser_addr(Family::V4, n)) == Some(n),
{
    lemma_pow2_values();
    let b0 = n / 0x100_0000;
    let r0 = n % 0x100_0000;
    let b1 = r0 / 0x1_0000;
    let r1 = r0 % 0x1_0000;
    let b2 = r1 / 0x100;
    let b3 = r1 % 0x100;
    let d0 = crate::text::dec_str(b0);
    let s1 = crate::text::dec_str(b1) + seq!['.'] + (crate::text::dec_str(b2) + seq!['.']
        + crate::text::dec_str(b3));
    crate::text::lemma_dec_str_val(b0);
    lemma_dec_str_no(b0, '.');
    lemma_v4_three_groups(b1, b2, b3);
    let s = ser_addr(Family::V4, n);
    assert(s =~= d0 + seq!['.'] + s1);
    assert forall|j: int| 0 <= j < d0.len() implies s[j] != '.' by {
        assert(s[j] == d0[j]);
    }
    assert(s[d0.len() as int] == '.');
    lemma_find_char_is(s, '.', d0.len() as int);
    assert(s.take(d0.len() as int) =~= d0);
    assert(s.skip(d0.len() as int + 1) =~= s1);
    assert(spec_parse_v4_groups(s, 4) == Some(
        b0 * spow(256, 3) + (b1 * spow(256, 2) + (b2 * spow(256, 1) + b3)),
    ));
    assert(b0 * 0x100_0000 + (b1 * 0x1_0000 + (b2 * 0x100 + b3)) == n);
}

/// Canonical IPv4 text holds only digits and dots.
pub proof fn lemma_ser_v4_addr_chars(n: int)
    requires
        0 <= n <= 0xFFFF_FFFF,
    ensures
        ser_addr(Family::V4, n).len() > 0,
        forall|j: int|
            0 <= j < ser_addr(Family::V4, n).len() ==> is_dec_digit(
                #[trigger] ser_addr(Family::V4, n)[j],
            ) || ser_addr(Family::V4, n)[j] == '.',
{
    let b0 = n / 0x100_0000;
    let r0 = n % 0x100_0000;
    let b1 = r0 / 0x1_0000;
    let r1 = r0 % 0x1_0000;
    let b2 = r1 / 0x100;
    let b3 = r1 % 0x100;
    crate::text::lemma_dec_str_val(b0);
    crate::text::lemma_dec_str_val(b1);
    crate::text::lemma_dec_str_val(b2);
    crate::text::lemma_dec_str_val(b3);
    let d0 = crate::text::dec_str(b0);
    let d1 = crate::text::dec_str(b1);
    let d2 = crate::text::dec_str(b2);
    let d3 = crate::text::dec_str(b3);
    let s = ser_addr(Family::V4, n);
    assert(s =~= d0 + seq!['.'] + d1 + seq!['.'] + d2 + seq!['.'] + d3);
    assert forall|j: int| 0 <= j < s.len() implies is_dec_digit(#[trigger] s[j]) || s[j]
        == '.' by {
        let l0 = d0.len() as int;
        let l1 = l0 + 1 + d1.len();
        let l2 = l1 + 1 + d2.len();
        if j < l0 {
            assert(s[j] == d0[j]);
        } else if j == l0 {
        } else if j < l1 {
            assert(s[j] == d1[j - l0 - 1]);
        } else if j == l1 {
        } else if j < l2 {
            assert(s[j] == d2[j - l1 - 1]);
        } else if j == l2 {
        } else {
            assert(s[j] == d3[j - l2 - 1]);
        }
    }
}

/// Parsing the canonical text of one IPv4 range gives that range back.
#[verifier::rlimit(100)]
#[verifier::spinoff_prover]
pub proof fn lemma_parse_ser_v4_item(r: AddrRange)
    requires
        r.lo <= r.hi,
        r.hi as int <= family_max(Family::V4),
    ensures
        spec_parse_item(Family::V4, ser_item(Family::V4, r)) == Some(r),
{
    let s = ser_item(Family::V4, r);
    lemma_ser_v4_addr_chars(r.lo as int);
    lemma_ser_v4_addr_chars(r.hi as int);
    lemma_parse_ser_v4(r.lo as int);
    lemma_parse_ser_v4(r.hi as int);
    let lo_t = ser_addr(Family::V4, r.lo as int);
    let hi_t = ser_addr(Family::V4, r.hi as int);
    if r.lo == r.hi {
        assert(s == lo_t);
        lemma_find_char(s, '/');
        match find_char(s, '/') {
            Some(k) => {
                assert(is_dec_digit(s[k]) || s[k] == '.');
                assert(false);
            },
            None => {},
        }
        lemma_find_char(s, '-');
        match find_char(s, '-') {
            Some(k) => {
                assert(is_dec_digit(s[k]) || s[k] == '.');
                assert(false);
            },
            None => {},
        }
        assert(spec_parse_item(Family::V4, s) == Some(r));
    } else {
        assert(s =~= lo_t + seq!['-'] + hi_t);
        lemma_find_char(s, '/');
        match find_char(s, '/') {
            Some(k) => {
                if k < lo_t.len() {
                    assert(s[k] == lo_t[k]);
                    assert(is_dec_digit(s[k]) || s[k] == '.');
                } else if k > lo_t.len() {
                    assert(s[k] == hi_t[k - lo_t.len() - 1]);
                    assert(is_dec_digit(s[k]) || s[k] == '.');
                }
                assert(false);
            },
            None => {},
        }
        assert forall|j: int| 0 <= j < lo_t.len() implies s[j] != '-' by {
            assert(s[j] == lo_t[j]);
            assert(is_dec_digit(s[j]) || s[j] == '.');
        }
        assert(s[lo_t.len() as int] == '-');
        lemma_find_char_is(s, '-', lo_t.len() as int);
        assert(s.take(lo_t.len() as int) =~= lo_t);
        assert(s.skip(lo_t.len() as int + 1) =~= hi_t);
        assert(spec_parse_item(Family::V4, s) == Some(r));
    }
}


/// Parsing the canonical text of one IPv6 range gives that range back.
#[verifier::rlimit(100)]
#[verifier::spinoff_prover]
pub proof fn lemma_parse_ser_v6_item(r: AddrRange)
    requires
        r.lo <= r.hi,
        r.hi as int <= family_max(Family::V6),
    ensures
        spec_parse_item(Family::V6, ser_item(Family::V6, r)) == Some(r),
{
    let s = ser_item(Family::V6, r);
    lemma_parse_ser_v6(r.lo as int);
    lemma_parse_ser_v6(r.hi as int);
    let lo_t = ser_addr(Family::V6, r.lo as int);
    let hi_t = ser_addr(Family::V6, r.hi as int);
    if r.lo == r.hi {
        assert(s == lo_t);
        lemma_find_char(s, '/');
        match find_char(s, '/') {
            Some(k) => {
                assert(is_hex_digit(s[k]) || s[k] == ':');
                assert(false);
            },
            None => {},
        }
        lemma_find_char(s, '-');
        match find_char(s, '-') {
            Some(k) => {
                assert(is_hex_digit(s[k]) || s[k] == ':');
                assert(false);
            },
            None => {},
        }
        assert(spec_parse_item(Family::V6, s) == Some(r));
    } else {
        assert(s =~= lo_t + seq!['-'] + hi_t);
        lemma_find_char(s, '/');
        match find_char(s, '/') {
            Some(k) => {
                if k < lo_t.len() {
                    assert(s[k] == lo_t[k]);
                    assert(is_hex_digit(s[k]) || s[k] == ':');
                } else if k > lo_t.len() {
                    assert(s[k] == hi_t[k - lo_t.len() - 1]);
                    assert(is_hex_digit(s[k]) || s[k] == ':');
                }
                assert(false);
            },
            None => {},
        }
        assert forall|j: int| 0 <= j < lo_t.len() implies s[j] != '-' by {
            assert(s[j] == lo_t[j]);
            assert(is_hex_digit(s[j]) || s[j] == ':');
        }
        assert(s[lo_t.len() as int] == '-');
        lemma_find_char_is(s, '-', lo_t.len() as int);
        assert(s.take(lo_t.len() as int) =~= lo_t);
        assert(s.skip(lo_t.len() as int + 1) =~= hi_t);
        assert(spec_parse_item(Family::V6, s) == Some(r));
    }
}

/// Canonical IPv6 range text has no comma and no space, and is never blank.
pub proof fn lemma_ser_v6_item_chars(r: AddrRange)
    requires
        r.lo <= r.hi,
        r.hi as int <= family_max(Family::V6),
    ensures
        ser_item(Family::V6, r).len() > 0,
        forall|j: int|
            0 <= j < ser_item(Family::V6, r).len() ==> ser_item(Family::V6, r)[j] != ','
                && ser_item(Family::V6, r)[j] != ' ',
{
    let s = ser_item(Family::V6, r);
    lemma_parse_ser_v6(r.lo as int);
    lemma_parse_ser_v6(r.hi as int);
    let lo_t = ser_addr(Family::V6, r.lo as int);
    let hi_t = ser_addr(Family::V6, r.hi as int);
    assert forall|j: int| 0 <= j < s.len() implies s[j] != ',' && s[j] != ' ' by {
        if r.lo == r.hi {
            assert(is_hex_digit(s[j]) || s[j] == ':');
        } else {
            assert(s =~= lo_t + seq!['-'] + hi_t);
            if j < lo_t.len() {
                assert(s[j] == lo_t[j]);
                assert(is_hex_digit(s[j]) || s[j] == ':');
            } else if j > lo_t.len() {
                assert(s[j] == hi_t[j - lo_t.len() - 1]);
                assert(is_hex_digit(s[j]) || s[j] == ':');
            }
        }
    }
}

/// Parsing the canonical text of a normal range list gives it back, for any
/// family whose items are known to round-trip and to avoid commas, spaces
/// and blanks.
#[verifier::rlimit(100)]
#[verifier::spinoff_prover]
pub proof fn lemma_round_trip_items(f: Family, s: Seq<AddrRange>)
    requires
        s.len() > 0,
        forall|i: int|
            0 <= i < s.len() ==> spec_parse_item(
                f,
                ser_item(f, #[trigger] s[i]),
            ) == Some(s[i]),
        forall|i: int, j: int|
            #![trigger ser_item(f, s[i])[j]]
            0 <= i < s.len() && 0 <= j < ser_item(f, s[i]).len() ==> ser_item(f, s[i])[j] != ','
                && ser_item(f, s[i])[j] != ' ',
        forall|i: int| 0 <= i < s.len() ==> ser_item(f, #[trigger] s[i]).len() > 0,
    ensures
        spec_parse_items(f, ser_items(f, s)) == Some(s),
    decreases s.len(),
{
    let t = ser_items(f, s);
    if s.len() == 1 {
        assert(t == ser_item(f, s[0]));
        lemma_find_char(t, ',');
        match find_char(t, ',') {
            None => {
                lemma_trim_id(t);
                assert(spec_parse_items(f, t) == Some(seq![s[0]]));
                assert(seq![s[0]] =~= s);
            },
            Some(k) => {
                assert(t[k] != ',');
                assert(false);
            },
        }
    } else {
        let head = ser_item(f, s[0]);
        let rest = ser_items(f, s.drop_first());
        assert(t =~= head + seq![','] + rest);
        assert forall|j: int| 0 <= j < head.len() implies t[j] != ',' by {
            assert(t[j] == head[j]);
        }
        assert(t[head.len() as int] == ',');
        lemma_find_char_is(t, ',', head.len() as int);
        assert(t.take(head.len() as int) =~= head);
        lemma_trim_id(head);
        assert(t.skip(head.len() as int + 1) =~= rest);
        let s1 = s.drop_first();
        assert(forall|i: int| 0 <= i < s1.len() ==> s1[i] == s[i + 1]);
        lemma_round_trip_items(f, s1);
        assert(spec_parse_items(f, t) == Some(seq![s[0]] + s1));
        assert(seq![s[0]] + s1 =~= s);
    }
}


/// A value under `16^k` prints as at most `k` hexadecimal digits.
proof fn lemma_hex_str_len_le(n: int, k: nat)
    requires
        k >= 1,
        0 <= n < spow(16, k),
    ensures
        crate::text::hex_str(n).len() <= k,
    decreases k,
{
    if n < 16 {
        assert(crate::text::hex_str(n).len() == 1);
    } else {
        assert(spow(16, k) == 16 * spow(16, (k - 1) as nat));
        assert(n / 16 < spow(16, (k - 1) as nat)) by (nonlinear_arith)
            requires
                n < 16 * spow(16, (k - 1) as nat) && n >= 16,
        ;
        assert(k >= 2) by {
            if k == 1 {
                assert(spow(16, 1) == 16 * spow(16, 0));
                assert(spow(16, 0) == 1);
            }
        }
        lemma_hex_str_len_le(n / 16, (k - 1) as nat);
    }
}

/// The canonical colon-joined text of a non-empty group list.
pub open spec fn join_groups(gs: Seq<int>) -> Seq<char>
    decreases gs.len(),
{
    if gs.len() <= 1 {
        crate::text::hex_str(gs[0])
    } else {
        crate::text::hex_str(gs[0]) + seq![':'] + join_groups(gs.drop_first())
    }
}

/// Joined canonical groups parse back to themselves; their text starts with
/// a hex digit, holds only hex digits and single colons, and never holds a
/// double colon.
#[verifier::rlimit(100)]
#[verifier::spinoff_prover]
proof fn lemma_join_groups(gs: Seq<int>)
    requires
        gs.len() >= 1,
        groups_ok(gs),
    ensures
        spec_parse_hex_groups(join_groups(gs)) == Some(gs),
        join_groups(gs).len() > 0,
        is_hex_digit(join_groups(gs)[0]),
        forall|j: int|
            0 <= j < join_groups(gs).len() ==> is_hex_digit(#[trigger] join_groups(gs)[j])
                || join_groups(gs)[j] == ':',
        forall|j: int|
            #![trigger join_groups(gs)[j]]
            0 <= j < join_groups(gs).len() - 1 ==> !(join_groups(gs)[j] == ':' && join_groups(
                gs,
            )[j + 1] == ':'),
    decreases gs.len(),
{
    lemma_pow2_values();
    let h0 = crate::text::hex_str(gs[0]);
    assert(0 <= gs[0] < 0x1_0000);
    crate::text::lemma_hex_str_val(gs[0]);
    lemma_hex_str_len_le(gs[0], 4);
    assert forall|j: int| 0 <= j < h0.len() implies is_hex_digit(h0[j]) && h0[j] != ':' by {
        assert(is_hex_digit(h0[j]));
    }
    if gs.len() == 1 {
        let t = join_groups(gs);
        assert(t == h0);
        lemma_find_char(t, ':');
        match find_char(t, ':') {
            Some(k) => {
                assert(t[k] != ':');
                assert(false);
            },
            None => {},
        }
        assert(spec_parse_hex_groups(t) == Some(seq![hex_val(t)]));
        assert(seq![hex_val(t)] =~= gs);
    } else {
        let gs1 = gs.drop_first();
        assert(forall|i: int| 0 <= i < gs1.len() ==> gs1[i] == gs[i + 1]);
        lemma_join_groups(gs1);
        let rest = join_groups(gs1);
        let t = join_groups(gs);
        assert(t =~= h0 + seq![':'] + rest);
        assert forall|j: int| 0 <= j < h0.len() implies t[j] != ':' by {
            assert(t[j] == h0[j]);
        }
        assert(t[h0.len() as int] == ':');
        lemma_find_char_is(t, ':', h0.len() as int);
        assert(t.take(h0.len() as int) =~= h0);
        assert(t.skip(h0.len() as int + 1) =~= rest);
        assert(spec_parse_hex_groups(t) == Some(seq![hex_val(h0)] + gs1));
        assert(seq![hex_val(h0)] + gs1 =~= gs);
        assert forall|j: int|
            0 <= j < t.len() implies is_hex_digit(#[trigger] t[j]) || t[j] == ':' by {
            if j < h0.len() {
                assert(t[j] == h0[j]);
            } else if j > h0.len() {
                assert(t[j] == rest[j - h0.len() - 1]);
            }
        }
        assert forall|j: int|
            #![trigger t[j]]
            0 <= j < t.len() - 1 implies !(t[j] == ':' && t[j + 1] == ':') by {
            if j < h0.len() {
                assert(t[j] == h0[j]);
                assert(is_hex_digit(t[j]));
            } else if j == h0.len() {
                assert(t[j + 1] == rest[0]);
                assert(is_hex_digit(rest[0]));
            } else {
                assert(t[j] == rest[j - h0.len() - 1]);
                assert(t[j + 1] == rest[j - h0.len()]);
                assert(!(rest[j - h0.len() - 1] == ':' && rest[j - h0.len()] == ':'));
            }
        }
    }
}


/// Parsing the canonical eight-group text of an IPv6 address gives it back.
#[verifier::rlimit(100)]
#[verifier::spinoff_prover]
pub proof fn lemma_parse_ser_v6(n: int)
    requires
        0 <= n <= family_max(Family::V6),
    ensures
        spec_parse_v6_addr(ser_addr(Family::V6, n)) == Some(n),
        ser_addr(Family::V6, n).len() > 0,
        forall|j: int|
            0 <= j < ser_addr(Family::V6, n).len() ==> is_hex_digit(
                #[trigger] ser_addr(Family::V6, n)[j],
            ) || ser_addr(Family::V6, n)[j] == ':',
{
    lemma_pow2_values();
    let g0 = n / 0x1_0000_0000_0000_0000_0000_0000_0000;
    let r0 = n % 0x1_0000_0000_0000_0000_0000_0000_0000;
    let g1 = r0 / 0x1_0000_0000_0000_0000_0000_0000;
    let r1 = r0 % 0x1_0000_0000_0000_0000_0000_0000;
    let g2 = r1 / 0x1_0000_0000_0000_0000_0000;
    let r2 = r1 % 0x1_0000_0000_0000_0000_0000;
    let g3 = r2 / 0x1_0000_0000_0000_0000;
    let r3 = r2 % 0x1_0000_0000_0000_0000;
    let g4 = r3 / 0x1_0000_0000_0000;
    let r4 = r3 % 0x1_0000_0000_0000;
    let g5 = r4 / 0x1_0000_0000;
    let r5 = r4 % 0x1_0000_0000;
    let g6 = r5 / 0x1_0000;
    let g7 = r5 % 0x1_0000;
    let gs = seq![g0, g1, g2, g3, g4, g5, g6, g7];
    assert(groups_ok(gs)) by {
        assert(g0 <= 0xFFFF);
        assert(g1 <= 0xFFFF);
        assert(g2 <= 0xFFFF);
        assert(g3 <= 0xFFFF);
        assert(g4 <= 0xFFFF);
        assert(g5 <= 0xFFFF);
        assert(g6 <= 0xFFFF);
        assert(g7 <= 0xFFFF);
        assert(forall|i: int| 0 <= i < 8 ==> gs[i] >= 0);
    }
    lemma_join_groups(gs);
    // The flat serialized text is the joined group text, suffix by suffix.
    let h = |g: int| crate::text::hex_str(g);
    assert(join_groups(seq![g7]) == h(g7));
    assert(seq![g6, g7].drop_first() =~= seq![g7]);
    assert(join_groups(seq![g6, g7]) =~= h(g6) + seq![':'] + h(g7));
    assert(seq![g5, g6, g7].drop_first() =~= seq![g6, g7]);
    assert(join_groups(seq![g5, g6, g7]) =~= h(g5) + seq![':'] + join_groups(seq![g6, g7]));
    assert(seq![g4, g5, g6, g7].drop_first() =~= seq![g5, g6, g7]);
    assert(join_groups(seq![g4, g5, g6, g7]) =~= h(g4) + seq![':'] + join_groups(
        seq![g5, g6, g7],
    ));
    assert(seq![g3, g4, g5, g6, g7].drop_first() =~= seq![g4, g5, g6, g7]);
    assert(join_groups(seq![g3, g4, g5, g6, g7]) =~= h(g3) + seq![':'] + join_groups(
        seq![g4, g5, g6, g7],
    ));
    assert(seq![g2, g3, g4, g5, g6, g7].drop_first() =~= seq![g3, g4, g5, g6, g7]);
    assert(join_groups(seq![g2, g3, g4, g5, g6, g7]) =~= h(g2) + seq![':'] + join_groups(
        seq![g3, g4, g5, g6, g7],
    ));
    assert(seq![g1, g2, g3, g4, g5, g6, g7].drop_first() =~= seq![g2, g3, g4, g5, g6, g7]);
    assert(join_groups(seq![g1, g2, g3, g4, g5, g6, g7]) =~= h(g1) + seq![':'] + join_groups(
        seq![g2, g3, g4, g5, g6, g7],
    ));
    assert(gs.drop_first() =~= seq![g1, g2, g3, g4, g5, g6, g7]);
    assert(join_groups(gs) =~= h(g0) + seq![':'] + join_groups(
        seq![g1, g2, g3, g4, g5, g6, g7],
    ));
    let s = ser_addr(Family::V6, n);
    assert(s =~= join_groups(gs));
    // No double colon, so the plain eight-group branch applies.
    lemma_find_dc(s);
    match find_dc(s) {
        Some(i) => {
            assert(!(s[i] == ':' && s[i + 1] == ':'));
            assert(false);
        },
        None => {},
    }
    assert(spec_parse_hex_groups(s) == Some(gs));
    // The eight groups recombine to the address, prefix by prefix.
    assert(seq![g0].drop_last() =~= Seq::<int>::empty());
    assert(groups_val(Seq::<int>::empty()) == 0);
    assert(groups_val(seq![g0]) == g0);
    assert(seq![g0, g1].drop_last() =~= seq![g0]);
    assert(groups_val(seq![g0, g1]) == g0 * 0x1_0000 + g1);
    assert(seq![g0, g1, g2].drop_last() =~= seq![g0, g1]);
    assert(groups_val(seq![g0, g1, g2]) == (g0 * 0x1_0000 + g1) * 0x1_0000 + g2);
    assert(seq![g0, g1, g2, g3].drop_last() =~= seq![g0, g1, g2]);
    assert(groups_val(seq![g0, g1, g2, g3]) == ((g0 * 0x1_0000 + g1) * 0x1_0000 + g2) * 0x1_0000
        + g3);
    assert(seq![g0, g1, g2, g3, g4].drop_last() =~= seq![g0, g1, g2, g3]);
    assert(groups_val(seq![g0, g1, g2, g3, g4]) == (((g0 * 0x1_0000 + g1) * 0x1_0000 + g2)
        * 0x1_0000 + g3) * 0x1_0000 + g4);
    assert(seq![g0, g1, g2, g3, g4, g5].drop_last() =~= seq![g0, g1, g2, g3, g4]);
    assert(groups_val(seq![g0, g1, g2, g3, g4, g5]) == ((((g0 * 0x1_0000 + g1) * 0x1_0000 + g2)
        * 0x1_0000 + g3) * 0x1_0000 + g4) * 0x1_0000 + g5);
    assert(seq![g0, g1, g2, g3, g4, g5, g6].drop_last() =~= seq![g0, g1, g2, g3, g4, g5]);
    assert(groups_val(seq![g0, g1, g2, g3, g4, g5, g6]) == (((((g0 * 0x1_0000 + g1) * 0x1_0000
        + g2) * 0x1_0000 + g3) * 0x1_0000 + g4) * 0x1_0000 + g5) * 0x1_0000 + g6);
    assert(gs.drop_last() =~= seq![g0, g1, g2, g3, g4, g5, g6]);
    assert(groups_val(gs) == ((((((g0 * 0x1_0000 + g1) * 0x1_0000 + g2) * 0x1_0000 + g3)
        * 0x1_0000 + g4) * 0x1_0000 + g5) * 0x1_0000 + g6) * 0x1_0000 + g7);
    assert(groups_val(gs) == n);
}

/// Canonical IPv4 range text has no comma and no space, and is never blank.
pub proof fn lemma_ser_v4_item_chars(r: AddrRange)
    requires
        r.lo <= r.hi,
        r.hi as int <= family_max(Family::V4),
    ensures
        ser_item(Family::V4, r).len() > 0,
        forall|j: int|
            0 <= j < ser_item(Family::V4, r).len() ==> ser_item(Family::V4, r)[j] != ','
                && ser_item(Family::V4, r)[j] != ' ',
{
    let s = ser_item(Family::V4, r);
    lemma_ser_v4_addr_chars(r.lo as int);
    lemma_ser_v4_addr_chars(r.hi as int);
    let lo_t = ser_addr(Family::V4, r.lo as int);
    let hi_t = ser_addr(Family::V4, r.hi as int);
    assert forall|j: int| 0 <= j < s.len() implies s[j] != ',' && s[j] != ' ' by {
        if r.lo == r.hi {
            assert(is_dec_digit(s[j]) || s[j] == '.');
        } else {
            assert(s =~= lo_t + seq!['-'] + hi_t);
            if j < lo_t.len() {
                assert(s[j] == lo_t[j]);
                assert(is_dec_digit(s[j]) || s[j] == '.');
            } else if j > lo_t.len() {
                assert(s[j] == hi_t[j - lo_t.len() - 1]);
                assert(is_dec_digit(s[j]) || s[j] == '.');
            }
        }
    }
}

/// Canonical list text of a family has no space and is blank only for the
/// empty list, given that each item's text is.
pub proof fn lemma_ser_items_no_space(f: Family, s: Seq<AddrRange>)
    requires
        forall|i: int|
            #![trigger s[i]]
            0 <= i < s.len() ==> ser_item(f, s[i]).len() > 0 && (forall|j: int|
                0 <= j < ser_item(f, s[i]).len() ==> ser_item(f, s[i])[j] != ' '),
    ensures
        s.len() > 0 ==> ser_items(f, s).len() > 0,
        forall|j: int| 0 <= j < ser_items(f, s).len() ==> ser_items(f, s)[j] != ' ',
    decreases s.len(),
{
    if s.len() == 0 {
    } else if s.len() == 1 {
        assert(ser_items(f, s) == ser_item(f, s[0]));
    } else {
        let s1 = s.drop_first();
        assert(forall|i: int| 0 <= i < s1.len() ==> s1[i] == s[i + 1]);
        lemma_ser_items_no_space(f, s1);
        let t = ser_items(f, s);
        let head = ser_item(f, s[0]);
        let rest = ser_items(f, s1);
        assert(t =~= head + seq![','] + rest);
        assert forall|j: int| 0 <= j < t.len() implies t[j] != ' ' by {
            if j < head.len() {
                assert(t[j] == head[j]);
            } else if j > head.len() {
                assert(t[j] == rest[j - head.len() - 1]);
            }
        }
    }
}

/// The full round-trip law for a family: parsing the canonical text of a
/// normal, bounded range list yields exactly that list.
pub proof fn lemma_round_trip_family(f: Family, s: Seq<AddrRange>)
    requires
        forall|i: int|
            0 <= i < s.len() ==> (#[trigger] s[i]).lo <= s[i].hi && s[i].hi as int <= family_max(
                f,
            ),
    ensures
        spec_parse_family(f, ser_items(f, s)) == Some(s),
{
    assert forall|i: int| 0 <= i < s.len() implies spec_parse_item(
        f,
        ser_item(f, #[trigger] s[i]),
    ) == Some(s[i]) by {
        match f {
            Family::Asn => lemma_parse_ser_asn_item(s[i]),
            Family::V4 => lemma_parse_ser_v4_item(s[i]),
            Family::V6 => lemma_parse_ser_v6_item(s[i]),
        }
    }
    assert forall|i: int, j: int|
        #![trigger ser_item(f, s[i])[j]]
        0 <= i < s.len() && 0 <= j < ser_item(f, s[i]).len() implies ser_item(f, s[i])[j] != ','
        && ser_item(f, s[i])[j] != ' ' by {
        match f {
            Family::Asn => lemma_ser_asn_item_chars(s[i]),
            Family::V4 => lemma_ser_v4_item_chars(s[i]),
            Family::V6 => lemma_ser_v6_item_chars(s[i]),
        }
    }
    assert forall|i: int| 0 <= i < s.len() implies ser_item(f, #[trigger] s[i]).len() > 0 by {
        match f {
            Family::Asn => lemma_ser_asn_item_chars(s[i]),
            Family::V4 => lemma_ser_v4_item_chars(s[i]),
            Family::V6 => lemma_ser_v6_item_chars(s[i]),
        }
    }
    let t = ser_items(f, s);
    if s.len() == 0 {
        assert(t =~= Seq::<char>::empty());
        assert(trim(t) == t);
        assert(spec_parse_family(f, t) == Some(s)) by {
            assert(Seq::<AddrRange>::empty() =~= s);
        }
    } else {
        lemma_ser_items_no_space(f, s);
        lemma_trim_id(t);
        lemma_round_trip_items(f, s);
    }
}

} // verus!
