//! Text as sequences of characters: conversion, comparison, whitespace and
//! decimal integers.
use vstd::prelude::*;

verus! {

/// The characters of a string slice.
pub fn chars_of(s: &str) -> (r: Vec<char>)
    ensures
        r@ == s@,
{
    broadcast use vstd::string::group_string_axioms;

    let mut v: Vec<char> = Vec::new();
    for c in it: s.chars()
        invariant
            v@ == it.seq().take(it.index() as int),
    {
        v.push(c);
    }
    v
}

/// Builds a `String` from characters, through std's
/// `<String as FromIterator<&char>>::from_iter`, which pushes each character
/// in order: the text is the characters, in their order.
#[verifier::external_body]
pub fn string_of(v: &[char]) -> (r: String)
    ensures
        r@ == v@,
{
    <String as std::iter::FromIterator<&char>>::from_iter(v)
}

/// A copy of a character vector.
pub fn copy_chars(v: &[char]) -> (r: Vec<char>)
    ensures
        r@ == v@,
{
    let mut out: Vec<char> = Vec::new();
    let mut i: usize = 0;
    while i < v.len()
        invariant
            i <= v@.len(),
            out@ == v@.subrange(0, i as int),
        decreases v@.len() - i,
    {
        out.push(v[i]);
        i = i + 1;
    }
    out
}

/// Whether two character sequences are equal.
pub fn chars_eq(a: &[char], b: &[char]) -> (r: bool)
    ensures
        r == (a@ == b@),
{
    if a.len() != b.len() {
        return false;
    }
    let mut i: usize = 0;
    while i < a.len()
        invariant
            i <= a@.len(),
            a@.len() == b@.len(),
            a@.subrange(0, i as int) == b@.subrange(0, i as int),
        decreases a@.len() - i,
    {
        if a[i] != b[i] {
            assert(a@[i as int] != b@[i as int]);
            return false;
        }
        assert(a@.subrange(0, i + 1) == a@.subrange(0, i as int).push(a@[i as int]));
        assert(b@.subrange(0, i + 1) == b@.subrange(0, i as int).push(b@[i as int]));
        i = i + 1;
    }
    assert(a@ == a@.subrange(0, a@.len() as int));
    assert(b@ == b@.subrange(0, b@.len() as int));
    true
}

/// Whether the characters equal those of a string slice.
pub fn chars_eq_str(a: &[char], b: &str) -> (r: bool)
    ensures
        r == (a@ == b@),
{
    let bv = chars_of(b);
    chars_eq(a, bv.as_slice())
}

/// `p` is a prefix of `s`.
pub open spec fn is_prefix(p: Seq<char>, s: Seq<char>) -> bool {
    p.len() <= s.len() && s.subrange(0, p.len() as int) == p
}

/// Whether `s` starts with `p`.
pub fn starts_with(s: &[char], p: &[char]) -> (r: bool)
    ensures
        r == is_prefix(p@, s@),
{
    if p.len() > s.len() {
        return false;
    }
    let mut i: usize = 0;
    while i < p.len()
        invariant
            i <= p@.len(),
            p@.len() <= s@.len(),
            s@.subrange(0, i as int) == p@.subrange(0, i as int),
        decreases p@.len() - i,
    {
        if s[i] != p[i] {
            assert(s@.subrange(0, p@.len() as int)[i as int] != p@[i as int]);
            return false;
        }
        assert(s@.subrange(0, i + 1) == s@.subrange(0, i as int).push(s@[i as int]));
        assert(p@.subrange(0, i + 1) == p@.subrange(0, i as int).push(p@[i as int]));
        i = i + 1;
    }
    assert(p@ == p@.subrange(0, p@.len() as int));
    true
}

/// The characters of `s` from index `from` on.
pub fn suffix_from(s: &[char], from: usize) -> (r: Vec<char>)
    requires
        from <= s@.len(),
    ensures
        r@ == s@.subrange(from as int, s@.len() as int),
{
    let mut out: Vec<char> = Vec::new();
    let mut i: usize = from;
    while i < s.len()
        invariant
            from <= i <= s@.len(),
            out@ == s@.subrange(from as int, i as int),
        decreases s@.len() - i,
    {
        out.push(s[i]);
        assert(s@.subrange(from as int, i + 1) == s@.subrange(from as int, i as int).push(s@[i as int]));
        i = i + 1;
    }
    out
}

/// The characters of `s` in `[from, to)`.
pub fn slice_chars(s: &[char], from: usize, to: usize) -> (r: Vec<char>)
    requires
        from <= to <= s@.len(),
    ensures
        r@ == s@.subrange(from as int, to as int),
{
    let mut out: Vec<char> = Vec::new();
    let mut i: usize = from;
    while i < to
        invariant
            from <= i <= to,
            to <= s@.len(),
            out@ == s@.subrange(from as int, i as int),
        decreases to - i,
    {
        out.push(s[i]);
        assert(s@.subrange(from as int, i + 1) == s@.subrange(from as int, i as int).push(s@[i as int]));
        i = i + 1;
    }
    out
}

/// Appends all characters of `b` to `a`.
pub fn append_chars(a: &mut Vec<char>, b: &[char])
    ensures
        final(a)@ == old(a)@ + b@,
{
    let ghost a0 = a@;
    let mut i: usize = 0;
    while i < b.len()
        invariant
            i <= b@.len(),
            a@ == a0 + b@.subrange(0, i as int),
        decreases b@.len() - i,
    {
        a.push(b[i]);
        assert(b@.subrange(0, i + 1) == b@.subrange(0, i as int).push(b@[i as int]));
        i = i + 1;
    }
    assert(b@ == b@.subrange(0, b@.len() as int));
}

/// Unicode white space, as `char::is_whitespace` classifies it.
pub open spec fn is_ws(c: char) -> bool {
    ||| ('\u{9}' <= c && c <= '\u{d}')
    ||| c == ' '
    ||| c == '\u{85}'
    ||| c == '\u{a0}'
    ||| c == '\u{1680}'
    ||| ('\u{2000}' <= c && c <= '\u{200a}')
    ||| c == '\u{2028}'
    ||| c == '\u{2029}'
    ||| c == '\u{202f}'
    ||| c == '\u{205f}'
    ||| c == '\u{3000}'
}

/// Whether `c` is white space.
pub fn is_whitespace(c: char) -> (r: bool)
    ensures
        r == is_ws(c),
{
    ('\u{9}' <= c && c <= '\u{d}') || c == ' ' || c == '\u{85}' || c == '\u{a0}' || c == '\u{1680}'
        || ('\u{2000}' <= c && c <= '\u{200a}') || c == '\u{2028}' || c == '\u{2029}' || c
        == '\u{202f}' || c == '\u{205f}' || c == '\u{3000}'
}

/// An ASCII decimal digit.
pub open spec fn is_digit(c: char) -> bool {
    '0' <= c && c <= '9'
}

/// The value of a decimal digit.
pub open spec fn digit_value(c: char) -> int {
    c as int - '0' as int
}

/// Every character is a decimal digit.
pub open spec fn all_digits(s: Seq<char>) -> bool {
    forall|i: int| 0 <= i < s.len() ==> is_digit(#[trigger] s[i])
}

/// The number that a sequence of decimal digits denotes.
pub open spec fn digits_value(s: Seq<char>) -> int
    decreases s.len(),
{
    if s.len() == 0 {
        0
    } else {
        digits_value(s.drop_last()) * 10 + digit_value(s.last())
    }
}

/// What `i32::from_str` accepts: an optional sign, then one or more decimal
/// digits, denoting a value in range.
pub open spec fn spec_parse_i32(s: Seq<char>) -> Option<i32> {
    let neg = s.len() > 0 && s[0] == '-';
    let signed = s.len() > 0 && (s[0] == '-' || s[0] == '+');
    let body = if signed { s.drop_first() } else { s };
    if body.len() == 0 || !all_digits(body) {
        None
    } else {
        let v = if neg { -digits_value(body) } else { digits_value(body) };
        if i32::MIN <= v <= i32::MAX {
            Some(v as i32)
        } else {
            None
        }
    }
}

proof fn lemma_digits_value_nonneg(s: Seq<char>)
    requires
        all_digits(s),
    ensures
        digits_value(s) >= 0,
    decreases s.len(),
{
    if s.len() > 0 {
        assert(is_digit(s[s.len() - 1]));
        lemma_digits_value_nonneg(s.drop_last());
    }
}

proof fn lemma_digits_value_mono(s: Seq<char>, k: int)
    requires
        all_digits(s),
        0 <= k <= s.len(),
    ensures
        digits_value(s.subrange(0, k)) <= digits_value(s),
    decreases s.len() - k,
{
    if k < s.len() {
        lemma_digits_value_mono(s, k + 1);
        let t = s.subrange(0, k + 1);
        assert(t.drop_last() == s.subrange(0, k));
        assert(is_digit(s[k]));
        lemma_digits_value_nonneg(s.subrange(0, k));
    } else {
        assert(s.subrange(0, k) == s);
    }
}

/// Parses a decimal `i32` exactly as `i32::from_str` does.
pub fn parse_i32(s: &[char]) -> (r: Option<i32>)
    ensures
        r == spec_parse_i32(s@),
{
    let n = s.len();
    let mut start: usize = 0;
    let mut neg = false;
    if n > 0 && (s[0] == '-' || s[0] == '+') {
        start = 1;
        neg = s[0] == '-';
    }
    let ghost body = if start == 1 { s@.drop_first() } else { s@ };
    assert(body == s@.subrange(start as int, n as int));
    if start >= n {
        return None;
    }
    let mut acc: i64 = 0;
    let mut i: usize = start;
    while i < n
        invariant
            start <= i <= n,
            n == s@.len(),
            body == s@.subrange(start as int, n as int),
            start == 1 <==> (s@.len() > 0 && (s@[0] == '-' || s@[0] == '+')),
            start == 0 || start == 1,
            neg <==> (s@.len() > 0 && s@[0] == '-'),
            body == (if s@.len() > 0 && (s@[0] == '-' || s@[0] == '+') { s@.drop_first() } else { s@ }),
            body.len() > 0,
            all_digits(s@.subrange(start as int, i as int)),
            acc == digits_value(s@.subrange(start as int, i as int)),
            0 <= acc <= 2147483648,
        decreases n - i,
    {
        let c = s[i];
        if !('0' <= c && c <= '9') {
            assert(body[i - start] == c);
            assert(!is_digit(body[i - start]));
            assert(!all_digits(body));
            return None;
        }
        let d = (c as u32 - '0' as u32) as i64;
        let ghost pre = s@.subrange(start as int, i as int);
        let ghost nxt = s@.subrange(start as int, i + 1);
        assert(nxt.drop_last() == pre);
        assert(nxt.last() == c);
        assert(all_digits(nxt)) by {
            assert forall|j: int| 0 <= j < nxt.len() implies is_digit(#[trigger] nxt[j]) by {
                if j < nxt.len() - 1 {
                    assert(nxt[j] == pre[j]);
                }
            }
        }
        let v = acc * 10 + d;
        if v > 2147483648 {
            proof {
                assert(digits_value(nxt) == v);
                if all_digits(body) {
                    assert(body.subrange(0, i + 1 - start) == nxt);
                    lemma_digits_value_mono(body, i + 1 - start);
                    lemma_digits_value_nonneg(body);
                }
            }
            return None;
        }
        acc = v;
        i = i + 1;
    }
    assert(s@.subrange(start as int, n as int) == body);
    if neg {
        Some((-acc) as i32)
    } else if acc <= 2147483647 {
        Some(acc as i32)
    } else {
        None
    }
}

/// The character of a decimal digit.
pub open spec fn digit_char(d: int) -> char {
    if d == 0 { '0' } else if d == 1 { '1' } else if d == 2 { '2' } else if d == 3 { '3' } else if d == 4 {
        '4'
    } else if d == 5 { '5' } else if d == 6 { '6' } else if d == 7 { '7' } else if d == 8 { '8' } else { '9' }
}

/// The decimal digits of a natural number, most significant first.
pub open spec fn nat_decimal(n: nat) -> Seq<char>
    decreases n,
{
    if n < 10 {
        seq![digit_char(n as int)]
    } else {
        nat_decimal(n / 10).push(digit_char((n % 10) as int))
    }
}

/// The decimal notation of an integer, as `Display` writes it.
pub open spec fn int_decimal(i: int) -> Seq<char> {
    if i < 0 {
        seq!['-'] + nat_decimal((-i) as nat)
    } else {
        nat_decimal(i as nat)
    }
}

fn digit_to_char(d: u64) -> (r: char)
    requires
        d < 10,
    ensures
        r == digit_char(d as int),
{
    if d == 0 { '0' } else if d == 1 { '1' } else if d == 2 { '2' } else if d == 3 { '3' } else if d == 4 {
        '4'
    } else if d == 5 { '5' } else if d == 6 { '6' } else if d == 7 { '7' } else if d == 8 { '8' } else { '9' }
}

/// The decimal notation of an `i32`.
pub fn decimal_chars(i: i32) -> (r: Vec<char>)
    ensures
        r@ == int_decimal(i as int),
{
    let neg = i < 0;
    let wide: i64 = i as i64;
    let m0: u64 = if neg { (-wide) as u64 } else { wide as u64 };
    let mut m: u64 = m0;
    let mut out: Vec<char> = Vec::new();
    loop
        invariant_except_break
            nat_decimal(m0 as nat) == nat_decimal(m as nat) + out@,
        ensures
            nat_decimal(m0 as nat) == out@,
        decreases m,
    {
        if m < 10 {
            let c = digit_to_char(m);
            let ghost before = out@;
            out.insert(0, c);
            assert(out@ == seq![c] + before);
            assert(nat_decimal(m as nat) == seq![c]);
            break;
        } else {
            let c = digit_to_char(m % 10);
            let ghost before = out@;
            out.insert(0, c);
            assert(out@ == seq![c] + before);
            assert(nat_decimal(m as nat) == nat_decimal((m / 10) as nat).push(c));
            assert(nat_decimal((m / 10) as nat).push(c) + before == nat_decimal((m / 10) as nat) + out@);
            m = m / 10;
        }
    }
    if neg {
        let mut r: Vec<char> = Vec::new();
        r.push('-');
        assert(r@ == seq!['-'] + out@.subrange(0, 0));
        let mut k: usize = 0;
        while k < out.len()
            invariant
                k <= out@.len(),
                r@ == seq!['-'] + out@.subrange(0, k as int),
            decreases out@.len() - k,
        {
            r.push(out[k]);
            assert(out@.subrange(0, k + 1) == out@.subrange(0, k as int).push(out@[k as int]));
            k = k + 1;
        }
        assert(out@.subrange(0, out@.len() as int) == out@);
        r
    } else {
        out
    }
}


/// `a` comes no later than `b` in dictionary order.
pub open spec fn chars_le(a: Seq<char>, b: Seq<char>) -> bool
    decreases a.len(),
{
    if a.len() == 0 {
        true
    } else if b.len() == 0 {
        false
    } else if (a[0] as u32) < (b[0] as u32) {
        true
    } else if (a[0] as u32) > (b[0] as u32) {
        false
    } else {
        chars_le(a.drop_first(), b.drop_first())
    }
}

/// Of two names, one comes no later than the other.
pub proof fn lemma_chars_le_total(a: Seq<char>, b: Seq<char>)
    ensures
        chars_le(a, b) || chars_le(b, a),
    decreases a.len(),
{
    if a.len() > 0 && b.len() > 0 && a[0] as u32 == b[0] as u32 {
        lemma_chars_le_total(a.drop_first(), b.drop_first());
    }
}

/// Dictionary order is transitive.
pub proof fn lemma_chars_le_trans(a: Seq<char>, b: Seq<char>, c: Seq<char>)
    requires
        chars_le(a, b),
        chars_le(b, c),
    ensures
        chars_le(a, c),
    decreases a.len(),
{
    if a.len() > 0 && b.len() > 0 && c.len() > 0 && a[0] as u32 == b[0] as u32 && b[0] as u32 == c[0] as u32 {
        lemma_chars_le_trans(a.drop_first(), b.drop_first(), c.drop_first());
    }
}

/// Whether `a` comes no later than `b` in dictionary order.
pub fn chars_le_exec(a: &[char], b: &[char]) -> (r: bool)
    ensures
        r == chars_le(a@, b@),
{
    let mut i: usize = 0;
    assert(a@.skip(0) =~= a@);
    assert(b@.skip(0) =~= b@);
    while i < a.len()
        invariant
            i <= a@.len(),
            i <= b@.len(),
            chars_le(a@, b@) == chars_le(a@.skip(i as int), b@.skip(i as int)),
        decreases a@.len() - i,
    {
        if i >= b.len() {
            return false;
        }
        let x = a[i] as u32;
        let y = b[i] as u32;
        assert(a@.skip(i as int)[0] == a@[i as int]);
        assert(b@.skip(i as int)[0] == b@[i as int]);
        if x < y {
            return true;
        }
        if x > y {
            return false;
        }
        assert(a@.skip(i as int).drop_first() =~= a@.skip(i + 1));
        assert(b@.skip(i as int).drop_first() =~= b@.skip(i + 1));
        i = i + 1;
    }
    true
}

/// Names in dictionary order.
pub open spec fn names_sorted(s: Seq<Seq<char>>) -> bool {
    forall|i: int, j: int| 0 <= i < j < s.len() ==> chars_le(#[trigger] s[i], #[trigger] s[j])
}

/// The names in dictionary order.
pub fn sort_names(v: &Vec<Vec<char>>) -> (r: Vec<Vec<char>>)
    ensures
        names_sorted(r@.map_values(|t: Vec<char>| t@)),
        r@.map_values(|t: Vec<char>| t@).to_multiset() == v@.map_values(|t: Vec<char>| t@).to_multiset(),
{
    broadcast use vstd::seq_lib::group_to_multiset_ensures;
    let mut out: Vec<Vec<char>> = Vec::new();
    let mut k: usize = 0;
    assert(out@.map_values(|t: Vec<char>| t@) =~= v@.map_values(|t: Vec<char>| t@).subrange(0, 0));
    while k < v.len()
        invariant
            k <= v@.len(),
            names_sorted(out@.map_values(|t: Vec<char>| t@)),
            out@.map_values(|t: Vec<char>| t@).to_multiset() == v@.map_values(|t: Vec<char>| t@).subrange(0, k as int).to_multiset(),
        decreases v@.len() - k,
    {
        let x = copy_chars(v[k].as_slice());
        let ghost ov = out@.map_values(|t: Vec<char>| t@);
        let mut p: usize = 0;
        while p < out.len() && chars_le_exec(out[p].as_slice(), x.as_slice())
            invariant
                p <= out@.len(),
                ov == out@.map_values(|t: Vec<char>| t@),
                forall|i: int| 0 <= i < p ==> chars_le(#[trigger] ov[i], x@),
            decreases out@.len() - p,
        {
            p = p + 1;
        }
        proof {
            if p < ov.len() {
                lemma_chars_le_total(ov[p as int], x@);
            }
        }
        out.insert(p, x);
        proof {
            let nv = out@.map_values(|t: Vec<char>| t@);
            assert(nv =~= ov.insert(p as int, x@));
            assert forall|i: int, j: int| 0 <= i < j < nv.len() implies chars_le(#[trigger] nv[i], #[trigger] nv[j]) by {
                if j < p {
                    assert(nv[i] == ov[i] && nv[j] == ov[j]);
                } else if j == p {
                    assert(nv[i] == ov[i]);
                } else if i < p {
                    assert(nv[i] == ov[i] && nv[j] == ov[j - 1]);
                    assert(chars_le(ov[i], x@));
                    assert(chars_le(x@, ov[p as int]));
                    if j - 1 > p {
                        assert(chars_le(ov[p as int], ov[j - 1]));
                        lemma_chars_le_trans(x@, ov[p as int], ov[j - 1]);
                    }
                    lemma_chars_le_trans(ov[i], x@, ov[j - 1]);
                } else if i == p {
                    assert(nv[j] == ov[j - 1]);
                    if j - 1 > p {
                        assert(chars_le(ov[p as int], ov[j - 1]));
                        lemma_chars_le_trans(x@, ov[p as int], ov[j - 1]);
                    }
                } else {
                    assert(nv[i] == ov[i - 1] && nv[j] == ov[j - 1]);
                }
            }
            let vv = v@.map_values(|t: Vec<char>| t@);
            assert(vv.subrange(0, k + 1) =~= vv.subrange(0, k as int).push(vv[k as int]));
            assert(vv[k as int] == x@);
            vstd::seq_lib::to_multiset_insert(ov, p as int, x@);
            vstd::seq_lib::to_multiset_build(vv.subrange(0, k as int), x@);
        }
        k = k + 1;
    }
    assert(v@.map_values(|t: Vec<char>| t@).subrange(0, v@.len() as int) =~= v@.map_values(|t: Vec<char>| t@));
    out
}

} // verus!
