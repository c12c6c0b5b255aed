use krill_ca::resourceset::{ParseError, ResourceSet};

#[test]
fn parse_serialize_round_trip() {
    let rs = ResourceSet::from_strs("AS1-AS100, AS200", "10.0.0.0/8, 192.168.1.1", "2001:db8::/32")
        .unwrap();
    let (a, v4, v6) = rs.to_strs();
    let rs2 = ResourceSet::from_strs(&a, &v4, &v6).unwrap();
    assert!(rs == rs2);
}

#[test]
fn round_trip_universal() {
    let rs = ResourceSet::from_strs("AS0-AS4294967295", "0.0.0.0/0", "::/0").unwrap();
    let (a, v4, v6) = rs.to_strs();
    assert_eq!(a, "AS0-AS4294967295");
    assert_eq!(v4, "0.0.0.0-255.255.255.255");
    assert_eq!(v6, "0:0:0:0:0:0:0:0-ffff:ffff:ffff:ffff:ffff:ffff:ffff:ffff");
    let rs2 = ResourceSet::from_strs(&a, &v4, &v6).unwrap();
    assert!(rs == rs2);
}

#[test]
fn equivalent_texts_compare_equal() {
    let a = ResourceSet::from_strs("AS1-AS10", "", "").unwrap();
    let b = ResourceSet::from_strs("AS1-AS5, AS6-AS10", "", "").unwrap();
    assert!(a == b);
    assert!(a.encompasses(&b));
    assert!(b.encompasses(&a));
}

#[test]
fn encompasses_is_reflexive() {
    let a = ResourceSet::from_strs("AS3", "172.16.0.0/12", "::1").unwrap();
    assert!(a.encompasses(&a));
}

#[test]
fn encompasses_proper_subset() {
    let big = ResourceSet::from_strs("AS0-AS100", "10.0.0.0/8", "2001:db8::/32").unwrap();
    let small = ResourceSet::from_strs("AS7-AS9", "10.1.0.0/16", "2001:db8:0:1::/64").unwrap();
    assert!(big.encompasses(&small));
    assert!(!small.encompasses(&big));
}

#[test]
fn union_merges_ranges() {
    let a = ResourceSet::from_strs("AS1-AS5", "", "").unwrap();
    let b = ResourceSet::from_strs("AS3-AS9", "", "").unwrap();
    let u = a.union(&b);
    let expected = ResourceSet::from_strs("AS1-AS9", "", "").unwrap();
    assert!(u == expected);
}

#[test]
fn union_merges_adjacent_ranges() {
    let a = ResourceSet::from_strs("AS1-AS4", "", "").unwrap();
    let b = ResourceSet::from_strs("AS5-AS9", "", "").unwrap();
    let u = a.union(&b);
    let expected = ResourceSet::from_strs("AS1-AS9", "", "").unwrap();
    assert!(u == expected);
    assert_eq!(u.to_strs().0, "AS1-AS9");
}

#[test]
fn intersect_keeps_common_part() {
    let a = ResourceSet::from_strs("AS1-AS5", "10.0.0.0/8", "").unwrap();
    let b = ResourceSet::from_strs("AS3-AS9", "10.1.2.0/24", "").unwrap();
    let i = a.intersect(&b);
    let expected = ResourceSet::from_strs("AS3-AS5", "10.1.2.0/24", "").unwrap();
    assert!(i == expected);
}

#[test]
fn empty_texts_give_empty_set() {
    let e = ResourceSet::from_strs("", "", "").unwrap();
    let any = ResourceSet::from_strs("AS1", "127.0.0.1", "::1").unwrap();
    assert!(any.encompasses(&e));
    assert!(!e.encompasses(&any));
    let (a, v4, v6) = e.to_strs();
    assert_eq!(a, "");
    assert_eq!(v4, "");
    assert_eq!(v6, "");
}

#[test]
fn compressed_v6_equals_full_form() {
    let a = ResourceSet::from_strs("", "", "2001:db8::").unwrap();
    let b = ResourceSet::from_strs("", "", "2001:0db8:0:0:0:0:0:0").unwrap();
    assert!(a == b);
    let c = ResourceSet::from_strs("", "", "::1").unwrap();
    let d = ResourceSet::from_strs("", "", "0:0:0:0:0:0:0:1").unwrap();
    assert!(c == d);
}

#[test]
fn malformed_asn_is_rejected() {
    assert!(matches!(
        ResourceSet::from_strs("ASX", "", ""),
        Err(ParseError::BadAsns)
    ));
    assert!(matches!(
        ResourceSet::from_strs("AS5-AS3", "", ""),
        Err(ParseError::BadAsns)
    ));
    assert!(matches!(
        ResourceSet::from_strs("AS4294967296", "", ""),
        Err(ParseError::BadAsns)
    ));
}

#[test]
fn malformed_v4_is_rejected() {
    assert!(matches!(
        ResourceSet::from_strs("", "300.1.2.3", ""),
        Err(ParseError::BadV4)
    ));
    assert!(matches!(
        ResourceSet::from_strs("", "10.0.0.1/8", ""),
        Err(ParseError::BadV4)
    ));
    assert!(matches!(
        ResourceSet::from_strs("", "10.0.0", ""),
        Err(ParseError::BadV4)
    ));
}

#[test]
fn malformed_v6_is_rejected() {
    assert!(matches!(
        ResourceSet::from_strs("", "", ":::"),
        Err(ParseError::BadV6)
    ));
    assert!(matches!(
        ResourceSet::from_strs("", "", "1:2:3"),
        Err(ParseError::BadV6)
    ));
    assert!(matches!(
        ResourceSet::from_strs("", "", "2001:db8::/129"),
        Err(ParseError::BadV6)
    ));
}

#[test]
fn spaces_around_items_are_accepted() {
    let a = ResourceSet::from_strs("AS1, AS2 , AS3", " 10.0.0.0/8 ", "").unwrap();
    let b = ResourceSet::from_strs("AS1,AS2,AS3", "10.0.0.0/8", "").unwrap();
    assert!(a == b);
}
