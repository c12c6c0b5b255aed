//! Textual forms of numbers: decimal and hexadecimal numerals, and small
//! search helpers over character sequences. Every executable function is
//! proved equal to a recursive specification of the grammar.

use vstd::prelude::*;

verus! {

/// `c` is a decimal digit.
pub open spec fn is_dec_digit(c: char) -> bool {
    48 <= c as u32 <= 57
}

/// Numeric value of a decimal digit.
pub open spec fn dec_digit_val(c: char) -> int {
    (c as u32) - 48
}

/// `c` is a hexadecimal digit (either case).
pub open spec fn is_hex_digit(c: char) -> bool {
    is_dec_digit(c) || 97 <= c as u32 <= 102 || 65 <= c as u32 <= 70
}

/// Numeric value of a hexadecimal digit.
pub open spec fn hex_digit_val(c: char) -> int {
    if is_dec_digit(c) {
        dec_digit_val(c)
    } else if 97 <= c as u32 <= 102 {
        (c as u32) - 87
    } else {
        (c as u32) - 55
    }
}

/// Every character of `s` is a decimal digit.
pub open spec fn all_dec(s: Seq<char>) -> bool {
    forall|i: int| 0 <= i < s.len() ==> is_dec_digit(#[trigger] s[i])
}

/// Every character of `s` is a hexadecimal digit.
pub open spec fn all_hex(s: Seq<char>) -> bool {
    forall|i: int| 0 <= i < s.len() ==> is_hex_digit(#[trigger] s[i])
}

/// Value of a decimal numeral.
pub open spec fn dec_val(s: Seq<char>) -> int
    decreases s.len(),
{
    if s.len() == 0 {
        0
    } else {
        dec_val(s.drop_last()) * 10 + dec_digit_val(s.last())
    }
}

/// Value of a hexadecimal numeral.
pub open spec fn hex_val(s: Seq<char>) -> int
    decreases s.len(),
{
    if s.len() == 0 {
        0
    } else {
        hex_val(s.drop_last()) * 16 + hex_digit_val(s.last())
    }
}

pub proof fn lemma_dec_val_nonneg(s: Seq<char>)
    requires
        all_dec(s),
    ensures
        dec_val(s) >= 0,
    decreases s.len(),
{
    if s.len() > 0 {
        assert(all_dec(s.drop_last())) by {
            assert(forall|i: int| 0 <= i < s.len() - 1 ==> s.drop_last()[i] == s[i]);
        }
        lemma_dec_val_nonneg(s.drop_last());
    }
}

pub proof fn lemma_hex_val_nonneg(s: Seq<char>)
    requires
        all_hex(s),
    ensures
        hex_val(s) >= 0,
    decreases s.len(),
{
    if s.len() > 0 {
        assert(all_hex(s.drop_last())) by {
            assert(forall|i: int| 0 <= i < s.len() - 1 ==> s.drop_last()[i] == s[i]);
        }
        lemma_hex_val_nonneg(s.drop_last());
    }
}

/// A decimal numeral never shrinks in value when digits are appended.
pub proof fn lemma_dec_val_prefix(s: Seq<char>, i: int)
    requires
        all_dec(s),
        0 <= i <= s.len(),
    ensures
        dec_val(s.take(i)) <= dec_val(s),
    decreases s.len() - i,
{
    if i < s.len() {
        let t = s.take(i + 1);
        assert(t.drop_last() =~= s.take(i));
        assert(all_dec(t)) by {
            assert(forall|k: int| 0 <= k < t.len() ==> t[k] == s[k]);
        }
        assert(all_dec(s.take(i))) by {
            assert(forall|k: int| 0 <= k < i ==> s.take(i)[k] == s[k]);
        }
        lemma_dec_val_nonneg(s.take(i));
        assert(dec_val(t) == dec_val(s.take(i)) * 10 + dec_digit_val(t.last()));
        assert(dec_val(s.take(i)) <= dec_val(t));
        lemma_dec_val_prefix(s, i + 1);
        assert(s.take(i + 1) == t);
    } else {
        assert(s.take(i) =~= s);
    }
}

/// Same for hexadecimal numerals.
pub proof fn lemma_hex_val_prefix(s: Seq<char>, i: int)
    requires
        all_hex(s),
        0 <= i <= s.len(),
    ensures
        hex_val(s.take(i)) <= hex_val(s),
    decreases s.len() - i,
{
    if i < s.len() {
        let t = s.take(i + 1);
        assert(t.drop_last() =~= s.take(i));
        assert(all_hex(t)) by {
            assert(forall|k: int| 0 <= k < t.len() ==> t[k] == s[k]);
        }
        assert(all_hex(s.take(i))) by {
            assert(forall|k: int| 0 <= k < i ==> s.take(i)[k] == s[k]);
        }
        lemma_hex_val_nonneg(s.take(i));
        assert(hex_val(t) == hex_val(s.take(i)) * 16 + hex_digit_val(t.last()));
        lemma_hex_val_prefix(s, i + 1);
        assert(s.take(i + 1) == t);
    } else {
        assert(s.take(i) =~= s);
    }
}

/// Parses the decimal numeral in `v[from..to]`: the value, if the slice is a
/// non-empty all-digit numeral whose value is at most `max`.
#[verifier::loop_isolation(false)]
pub fn parse_dec(v: &Vec<char>, from: usize, to: usize, max: u128) -> (r: Option<u128>)
    requires
        from <= to <= v@.len(),
    ensures
        ({
            let s = v@.subrange(from as int, to as int);
            match r {
                Some(n) => from < to && all_dec(s) && dec_val(s) == n && n <= max,
                None => !(from < to && all_dec(s) && dec_val(s) <= max),
            }
        }),
{
    let ghost s = v@.subrange(from as int, to as int);
    if from == to {
        return None;
    }
    let mut acc: u128 = 0;
    let mut i = from;
    while i < to
        invariant
            from <= i <= to,
            acc == dec_val(s.take(i - from)),
            acc <= max,
            all_dec(s.take(i - from)),
        decreases to - i,
    {
        let c = v[i];
        let u = c as u32;
        proof {
            assert(s.take(i + 1 - from).drop_last() =~= s.take(i - from));
            assert(s.take(i + 1 - from).last() == s[i - from]);
            assert(s[i - from] == v@[i as int]);
            assert(forall|k: int|
                0 <= k < i + 1 - from ==> s.take(i + 1 - from)[k] == s[k]);
        }
        if !(48 <= u && u <= 57) {
            proof {
                assert(!is_dec_digit(s[i - from]));
            }
            return None;
        }
        let d = (u - 48) as u128;
        if acc > max / 10 || d > max - 10 * acc {
            proof {
                assert(all_dec(s.take(i + 1 - from)));
                assert(dec_val(s.take(i + 1 - from)) == acc * 10 + d);
                if acc > max / 10 {
                    assert(acc >= max / 10 + 1);
                    assert((max / 10 + 1) * 10 > max);
                    assert(acc * 10 >= (max / 10 + 1) * 10) by (nonlinear_arith)
                        requires
                            acc >= max / 10 + 1,
                    ;
                }
                assert(dec_val(s.take(i + 1 - from)) > max);
                if all_dec(s) {
                    lemma_dec_val_prefix(s, i + 1 - from);
                }
            }
            return None;
        }
        acc = 10 * acc + d;
        i += 1;
    }
    proof {
        assert(s.take(to - from) =~= s);
    }
    Some(acc)
}

/// Parses the hexadecimal numeral in `v[from..to]`, value at most `max`.
#[verifier::loop_isolation(false)]
pub fn parse_hex(v: &Vec<char>, from: usize, to: usize, max: u128) -> (r: Option<u128>)
    requires
        from <= to <= v@.len(),
    ensures
        ({
            let s = v@.subrange(from as int, to as int);
            match r {
                Some(n) => from < to && all_hex(s) && hex_val(s) == n && n <= max,
                None => !(from < to && all_hex(s) && hex_val(s) <= max),
            }
        }),
{
    let ghost s = v@.subrange(from as int, to as int);
    if from == to {
        return None;
    }
    let mut acc: u128 = 0;
    let mut i = from;
    while i < to
        invariant
            from <= i <= to,
            acc == hex_val(s.take(i - from)),
            acc <= max,
            all_hex(s.take(i - from)),
        decreases to - i,
    {
        let c = v[i];
        let u = c as u32;
        proof {
            assert(s.take(i + 1 - from).drop_last() =~= s.take(i - from));
            assert(s.take(i + 1 - from).last() == s[i - from]);
            assert(s[i - from] == v@[i as int]);
            assert(forall|k: int|
                0 <= k < i + 1 - from ==> s.take(i + 1 - from)[k] == s[k]);
        }
        let d: u128;
        if 48 <= u && u <= 57 {
            d = (u - 48) as u128;
        } else if 97 <= u && u <= 102 {
            d = (u - 87) as u128;
        } else if 65 <= u && u <= 70 {
            d = (u - 55) as u128;
        } else {
            proof {
                assert(!is_hex_digit(s[i - from]));
            }
            return None;
        }
        if acc > max / 16 || d > max - 16 * acc {
            proof {
                assert(all_hex(s.take(i + 1 - from)));
                assert(hex_val(s.take(i + 1 - from)) == acc * 16 + d);
                if acc > max / 16 {
                    assert(acc >= max / 16 + 1);
                    assert((max / 16 + 1) * 16 > max);
                    assert(acc * 16 >= (max / 16 + 1) * 16) by (nonlinear_arith)
                        requires
                            acc >= max / 16 + 1,
                    ;
                }
                assert(hex_val(s.take(i + 1 - from)) > max);
                if all_hex(s) {
                    lemma_hex_val_prefix(s, i + 1 - from);
                }
            }
            return None;
        }
        acc = 16 * acc + d;
        i += 1;
    }
    proof {
        assert(s.take(to - from) =~= s);
    }
    Some(acc)
}

/// The canonical decimal numeral of `n`: no leading zero, `"0"` for zero.
pub open spec fn dec_str(n: int) -> Seq<char>
    decreases n,
{
    if n < 10 {
        seq![dec_char(n)]
    } else {
        dec_str(n / 10).push(dec_char(n % 10))
    }
}

/// The canonical lower-case hexadecimal numeral of `n`.
pub open spec fn hex_str(n: int) -> Seq<char>
    decreases n,
{
    if n < 16 {
        seq![hex_char(n)]
    } else {
        hex_str(n / 16).push(hex_char(n % 16))
    }
}

/// The decimal digit character of value `d`.
pub open spec fn dec_char(d: int) -> char {
    if d == 0 { '0' } else if d == 1 { '1' } else if d == 2 { '2' } else if d == 3 { '3' }
    else if d == 4 { '4' } else if d == 5 { '5' } else if d == 6 { '6' } else if d == 7 { '7' }
    else if d == 8 { '8' } else { '9' }
}

/// The lower-case hexadecimal digit character of value `d`.
pub open spec fn hex_char(d: int) -> char {
    if d < 10 { dec_char(d) } else if d == 10 { 'a' } else if d == 11 { 'b' }
    else if d == 12 { 'c' } else if d == 13 { 'd' } else if d == 14 { 'e' } else { 'f' }
}

/// The digit characters have their expected classes and values.
pub proof fn lemma_digit_chars(d: int)
    requires
        0 <= d < 16,
    ensures
        d < 10 ==> is_dec_digit(dec_char(d)) && dec_digit_val(dec_char(d)) == d,
        is_hex_digit(hex_char(d)) && hex_digit_val(hex_char(d)) == d,
{
}

/// Executable form of `dec_char`.
pub fn dec_char_of(d: u8) -> (c: char)
    requires
        d < 10,
    ensures
        c == dec_char(d as int),
{
    match d {
        0 => '0',
        1 => '1',
        2 => '2',
        3 => '3',
        4 => '4',
        5 => '5',
        6 => '6',
        7 => '7',
        8 => '8',
        _ => '9',
    }
}

/// Executable form of `hex_char`.
pub fn hex_char_of(d: u8) -> (c: char)
    requires
        d < 16,
    ensures
        c == hex_char(d as int),
{
    if d < 10 {
        dec_char_of(d)
    } else {
        match d {
            10 => 'a',
            11 => 'b',
            12 => 'c',
            13 => 'd',
            14 => 'e',
            _ => 'f',
        }
    }
}

/// The canonical numeral parses back to its value and contains only digits.
pub proof fn lemma_dec_str_val(n: int)
    requires
        n >= 0,
    ensures
        all_dec(dec_str(n)),
        dec_val(dec_str(n)) == n,
        dec_str(n).len() > 0,
    decreases n,
{
    if n < 10 {
        assert(dec_str(n) =~= seq![dec_char(n)]);
        lemma_digit_chars(n);
        let s = dec_str(n);
        assert(s.drop_last() =~= Seq::<char>::empty());
        assert(dec_val(Seq::<char>::empty()) == 0);
        assert(s.last() == dec_char(n));
        assert(dec_val(s) == dec_digit_val(dec_char(n)));
        assert forall|i: int| 0 <= i < s.len() implies is_dec_digit(#[trigger] s[i]) by {
            assert(s[i] == dec_char(n));
        }
    } else {
        lemma_dec_str_val(n / 10);
        let s = dec_str(n);
        assert(s == dec_str(n / 10).push(dec_char(n % 10)));
        assert(s.drop_last() =~= dec_str(n / 10));
        assert(s.last() == dec_char(n % 10));
        assert(is_dec_digit(dec_char(n % 10)) && dec_digit_val(dec_char(n % 10)) == n % 10) by {
            let m = n % 10;
            assert(0 <= m < 10);
            lemma_digit_chars(m);
        }
        assert(all_dec(s)) by {
            assert(forall|i: int| 0 <= i < s.len() - 1 ==> s[i] == dec_str(n / 10)[i]);
        }
        assert(dec_val(s) == dec_val(dec_str(n / 10)) * 10 + n % 10);
        assert(n == (n / 10) * 10 + n % 10);
    }
}

/// Same for the hexadecimal numeral.
pub proof fn lemma_hex_str_val(n: int)
    requires
        n >= 0,
    ensures
        all_hex(hex_str(n)),
        hex_val(hex_str(n)) == n,
        hex_str(n).len() > 0,
    decreases n,
{
    if n < 16 {
        assert(hex_str(n) =~= seq![hex_char(n)]);
        lemma_digit_chars(n);
        let s = hex_str(n);
        assert(s.drop_last() =~= Seq::<char>::empty());
        assert(hex_val(Seq::<char>::empty()) == 0);
        assert(s.last() == hex_char(n));
        assert(hex_val(s) == hex_digit_val(hex_char(n)));
        assert forall|i: int| 0 <= i < s.len() implies is_hex_digit(#[trigger] s[i]) by {
            assert(s[i] == hex_char(n));
        }
    } else {
        lemma_hex_str_val(n / 16);
        let s = hex_str(n);
        assert(s.drop_last() =~= hex_str(n / 16));
        assert(s.last() == hex_char(n % 16));
        assert(is_hex_digit(hex_char(n % 16)) && hex_digit_val(hex_char(n % 16)) == n % 16) by {
            let m = n % 16;
            assert(0 <= m < 16);
            lemma_digit_chars(m);
        }
        assert(all_hex(s)) by {
            assert(forall|i: int| 0 <= i < s.len() - 1 ==> s[i] == hex_str(n / 16)[i]);
        }
        assert(hex_val(s) == hex_val(hex_str(n / 16)) * 16 + n % 16);
        assert(n == (n / 16) * 16 + n % 16);
    }
}

/// Writes the canonical decimal numeral of `n` onto `out`.
pub fn push_dec(out: &mut Vec<char>, n: u128)
    ensures
        final(out)@ == old(out)@ + dec_str(n as int),
    decreases n,
{
    if n < 10 {
        let c = dec_char_of(n as u8);
        out.push(c);
        proof {
            assert(dec_str(n as int) =~= seq![dec_char(n as int)]);
            assert(final(out)@ =~= old(out)@ + dec_str(n as int));
        }
    } else {
        push_dec(out, n / 10);
        let d = n % 10;
        let c = dec_char_of(d as u8);
        out.push(c);
        proof {
            assert(c == dec_char((n % 10) as int));
            assert(old(out)@ + dec_str((n / 10) as int).push(dec_char((n % 10) as int)) =~= (old(
                out,
            )@ + dec_str((n / 10) as int)).push(dec_char((n % 10) as int)));
        }
    }
}

/// Writes the canonical hexadecimal numeral of `n` onto `out`.
pub fn push_hex(out: &mut Vec<char>, n: u128)
    ensures
        final(out)@ == old(out)@ + hex_str(n as int),
    decreases n,
{
    if n < 16 {
        let c = hex_char_of(n as u8);
        out.push(c);
        proof {
            assert(hex_str(n as int) =~= seq![hex_char(n as int)]);
            assert(final(out)@ =~= old(out)@ + hex_str(n as int));
        }
    } else {
        push_hex(out, n / 16);
        let d = n % 16;
        let c = hex_char_of(d as u8);
        out.push(c);
        proof {
            assert(c == hex_char((n % 16) as int));
            assert(old(out)@ + hex_str((n / 16) as int).push(hex_char((n % 16) as int)) =~= (old(
                out,
            )@ + hex_str((n / 16) as int)).push(hex_char((n % 16) as int)));
        }
    }
}

/// First index of `c` in `s`, if any.
pub open spec fn find_char(s: Seq<char>, c: char) -> Option<int>
    decreases s.len(),
{
    if s.len() == 0 {
        None
    } else if s[0] == c {
        Some(0)
    } else {
        match find_char(s.drop_first(), c) {
            None => None,
            Some(i) => Some(i + 1),
        }
    }
}

/// `find_char` returns the first occurrence, or nothing when there is none.
pub proof fn lemma_find_char(s: Seq<char>, c: char)
    ensures
        match find_char(s, c) {
            None => forall|j: int| 0 <= j < s.len() ==> s[j] != c,
            Some(i) => 0 <= i < s.len() && s[i] == c && (forall|j: int| 0 <= j < i ==> s[j] != c),
        },
    decreases s.len(),
{
    if s.len() > 0 && s[0] != c {
        let s1 = s.drop_first();
        lemma_find_char(s1, c);
        assert(forall|j: int| 0 <= j < s1.len() ==> s1[j] == s[j + 1]);
        match find_char(s1, c) {
            None => {
                assert forall|j: int| 0 <= j < s.len() implies s[j] != c by {
                    if j > 0 {
                        assert(s1[j - 1] != c);
                    }
                }
            },
            Some(i) => {
                assert(s1[i] == c);
                assert(s[i + 1] == c);
                assert forall|j: int| 0 <= j < i + 1 implies s[j] != c by {
                    if j > 0 {
                        assert(s1[j - 1] != c);
                    }
                }
                assert(find_char(s, c) == Some(i + 1));
            },
        }
    }
}

/// Finds the first occurrence of `c` in `v[from..to]`, as an absolute index.
#[verifier::loop_isolation(false)]
pub fn find_in(v: &Vec<char>, from: usize, to: usize, c: char) -> (r: Option<usize>)
    requires
        from <= to <= v@.len(),
    ensures
        ({
            let s = v@.subrange(from as int, to as int);
            match r {
                None => find_char(s, c) is None,
                Some(i) => from <= i < to && find_char(s, c) == Some(i - from),
            }
        }),
{
    let ghost s = v@.subrange(from as int, to as int);
    let mut i = from;
    while i < to
        invariant
            from <= i <= to,
            forall|j: int| 0 <= j < i - from ==> s[j] != c,
        decreases to - i,
    {
        if v[i] == c {
            proof {
                assert(s[i - from] == c);
                lemma_find_char(s, c);
                match find_char(s, c) {
                    None => {
                        assert(false);
                    },
                    Some(k) => {
                        if k < i - from {
                            assert(s[k] != c);
                            assert(false);
                        }
                        if k > i - from {
                            assert(s[i - from] != c);
                            assert(false);
                        }
                    },
                }
            }
            return Some(i);
        }
        i += 1;
    }
    proof {
        lemma_find_char(s, c);
        if find_char(s, c) is Some {
            let k = find_char(s, c)->Some_0;
            assert(s[k] != c);
        }
    }
    None
}

/// `s` with leading spaces removed.
pub open spec fn trim_front(s: Seq<char>) -> Seq<char>
    decreases s.len(),
{
    if s.len() > 0 && s[0] == ' ' {
        trim_front(s.drop_first())
    } else {
        s
    }
}

/// `s` with trailing spaces removed.
pub open spec fn trim_back(s: Seq<char>) -> Seq<char>
    decreases s.len(),
{
    if s.len() > 0 && s.last() == ' ' {
        trim_back(s.drop_last())
    } else {
        s
    }
}

/// `s` with surrounding spaces removed.
pub open spec fn trim(s: Seq<char>) -> Seq<char> {
    trim_back(trim_front(s))
}

/// Narrows `v[from..to]` to its trimmed part.
#[verifier::loop_isolation(false)]
pub fn trim_bounds(v: &Vec<char>, from: usize, to: usize) -> (r: (usize, usize))
    requires
        from <= to <= v@.len(),
    ensures
        from <= r.0 <= r.1 <= to,
        v@.subrange(r.0 as int, r.1 as int) == trim(v@.subrange(from as int, to as int)),
{
    let mut a = from;
    while a < to && v[a] == ' '
        invariant
            from <= a <= to,
            trim_front(v@.subrange(from as int, to as int)) == trim_front(
                v@.subrange(a as int, to as int),
            ),
        decreases to - a,
    {
        proof {
            let s = v@.subrange(a as int, to as int);
            assert(s[0] == ' ');
            assert(s.drop_first() =~= v@.subrange(a + 1, to as int));
        }
        a += 1;
    }
    proof {
        let s = v@.subrange(a as int, to as int);
        if s.len() > 0 {
            assert(s[0] == v@[a as int]);
        }
        assert(trim_front(s) == s);
    }
    let mut b = to;
    while b > a && v[b - 1] == ' '
        invariant
            a <= b <= to,
            trim_back(v@.subrange(a as int, to as int)) == trim_back(
                v@.subrange(a as int, b as int),
            ),
        decreases b,
    {
        proof {
            let s = v@.subrange(a as int, b as int);
            assert(s.last() == ' ');
            assert(s.drop_last() =~= v@.subrange(a as int, b - 1));
        }
        b -= 1;
    }
    proof {
        let s = v@.subrange(a as int, b as int);
        if s.len() > 0 {
            assert(s.last() == v@[b - 1]);
        }
        assert(trim_back(s) == s);
    }
    (a, b)
}

/// The characters of a string slice, one by one.
#[verifier::loop_isolation(false)]
pub fn chars_of(s: &str) -> (r: Vec<char>)
    ensures
        r@ == s@,
{
    let n = s.unicode_len();
    let mut v: Vec<char> = Vec::new();
    let mut i: usize = 0;
    while i < n
        invariant
            i <= n,
            n == s@.len(),
            v@ =~= s@.subrange(0, i as int),
        decreases n - i,
    {
        v.push(s.get_char(i));
        i += 1;
    }
    proof {
        assert(v@ =~= s@);
    }
    v
}

} // verus!
