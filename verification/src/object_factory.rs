//! Literals: strings in double quotes and decimal integers.
use vstd::prelude::*;
use crate::objects::{Object, OView};
use crate::effect_names::names_of;
use crate::text::{chars_eq, copy_chars, slice_chars, parse_i32, spec_parse_i32, int_decimal, nat_decimal, digit_char, digit_value, digits_value, is_digit, all_digits};

verus! {

/// Makes objects from literals and keeps the strings it has seen.
#[derive(Debug)]
pub struct ObjectFactory {
    pub strings: Vec<Vec<char>>,
}

/// What a token stands for as a literal: the text between double quotes, or
/// a decimal `i32`.
pub open spec fn spec_literal(s: Seq<char>) -> Option<OView> {
    if s.len() >= 2 && s[0] == '"' && s[s.len() - 1] == '"' {
        Some(OView::String(s.subrange(1, s.len() - 1)))
    } else {
        match spec_parse_i32(s) {
            Some(i) => Some(OView::I32(i)),
            None => None,
        }
    }
}

impl ObjectFactory {
    /// A factory that has seen no strings.
    pub fn new() -> (r: ObjectFactory)
        ensures
            r.strings@.len() == 0,
    {
        ObjectFactory { strings: Vec::new() }
    }

    /// The string, remembered for reuse.
    pub fn get_string(&mut self, s: &[char]) -> (r: Vec<char>)
        ensures
            r@ == s@,
            names_of(final(self).strings@).contains(s@),
    {
        let mut i: usize = 0;
        while i < self.strings.len()
            invariant
                i <= self.strings@.len(),
            decreases self.strings@.len() - i,
        {
            if chars_eq(self.strings[i].as_slice(), s) {
                assert(names_of(self.strings@)[i as int] == s@);
                return copy_chars(self.strings[i].as_slice());
            }
            i = i + 1;
        }
        let ghost before = self.strings@;
        self.strings.push(copy_chars(s));
        assert(names_of(self.strings@)[before.len() as int] == s@);
        copy_chars(s)
    }

    /// The object that a token stands for as a literal, if any. A lone `"`
    /// is no token that this is asked about.
    pub fn parse(&mut self, s: &[char]) -> (r: Option<Object>)
        requires
            s@ != seq!['"'],
        ensures
            match spec_literal(s@) {
                Some(v) => r matches Some(o) && o@ == v,
                None => r is None,
            },
            spec_literal(s@) is None ==> *final(self) == *old(self),
    {
        if s.len() > 0 && s[0] == '"' && s[s.len() - 1] == '"' {
            assert(s@.len() >= 2) by {
                if s@.len() == 1 {
                    assert(s@ =~= seq!['"']);
                }
            }
            let inner = slice_chars(s, 1, s.len() - 1);
            let st = self.get_string(inner.as_slice());
            return Some(Object::String(st));
        }
        match parse_i32(s) {
            Some(i) => Some(Object::I32(i)),
            None => None,
        }
    }

    /// An empty list.
    pub fn new_list(&self) -> (r: Object)
        ensures
            r@ == OView::List(Seq::empty()),
            r matches Object::List(w) && w@.len() == 0,
    {
        let v: Vec<Object> = Vec::new();
        let r = Object::List(v);
        assert(r@ == OView::List(crate::objects::view_objs(v@)));
        assert(crate::objects::view_objs(v@) =~= Seq::<OView>::empty());
        r
    }
}

proof fn lemma_digit_char(d: int)
    requires
        0 <= d < 10,
    ensures
        is_digit(digit_char(d)),
        digit_value(digit_char(d)) == d,
{
}

proof fn lemma_nat_decimal(n: nat)
    ensures
        nat_decimal(n).len() >= 1,
        all_digits(nat_decimal(n)),
        digits_value(nat_decimal(n)) == n,
    decreases n,
{
    if n < 10 {
        lemma_digit_char(n as int);
        let s = nat_decimal(n);
        assert(s.drop_last() =~= Seq::<char>::empty());
        assert(digits_value(Seq::<char>::empty()) == 0);
        assert(digits_value(s) == digits_value(s.drop_last()) * 10 + digit_value(s.last()));
    } else {
        lemma_nat_decimal(n / 10);
        lemma_digit_char((n % 10) as int);
        let t = nat_decimal(n / 10);
        let s = nat_decimal(n);
        assert(s == t.push(digit_char((n % 10) as int)));
        assert(s.drop_last() == t);
        assert forall|i: int| 0 <= i < s.len() implies is_digit(#[trigger] s[i]) by {
            if i < t.len() {
                assert(s[i] == t[i]);
            }
        }
        assert(s.last() == digit_char((n % 10) as int));
        assert(digits_value(s) == digits_value(t) * 10 + digit_value(s.last()));
        assert((n / 10) * 10 + n % 10 == n);
    }
}

/// What `repr` writes for an integer reads back as that integer: the
/// decimal text of every `i32` is a literal for it.
pub proof fn law_integer_literal_round_trip(i: i32)
    ensures
        spec_literal(int_decimal(i as int)) == Some(OView::I32(i)),
{
    if i >= 0 {
        let s = nat_decimal(i as nat);
        lemma_nat_decimal(i as nat);
        assert(is_digit(s[0]));
        assert(s == int_decimal(i as int));
    } else {
        let n = (-(i as int)) as nat;
        let t = nat_decimal(n);
        lemma_nat_decimal(n);
        let s = seq!['-'] + t;
        assert(s == int_decimal(i as int));
        assert(s[0] == '-');
        assert(s.drop_first() == t);
    }
}

} // verus!
