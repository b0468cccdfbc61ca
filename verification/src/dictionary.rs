//! Dictionaries: names of words and the entries they stand for.
use vstd::prelude::*;
use crate::objects::{Object, WordId};
use crate::stack_effect::StackEffect;
use crate::text::{chars_eq, copy_chars};

verus! {

/// A word: an ordinary one runs when called; a parsing word runs as soon as
/// it is read, also in compile mode.
#[derive(Debug)]
pub enum Word {
    Word(Object),
    ParsingWord(Object),
}

impl Word {
    /// The object that runs.
    pub fn inner(&self) -> (r: &Object)
        ensures
            *r == match *self {
                Word::Word(o) => o,
                Word::ParsingWord(o) => o,
            },
    {
        match self {
            Word::Word(o) => o,
            Word::ParsingWord(o) => o,
        }
    }
}

/// A dictionary entry: its name, the word and its stack effect.
#[derive(Debug)]
pub struct Entry {
    pub name: Vec<char>,
    pub word: Word,
    pub stack_effect: StackEffect,
}

/// Names and the entries they stand for.
#[derive(Debug)]
pub struct Dictionary {
    pub words: Vec<(Vec<char>, WordId)>,
}

/// The mathematical value of a dictionary: its names with their entries.
pub open spec fn dict_view(s: Seq<(Vec<char>, WordId)>) -> Seq<(Seq<char>, WordId)> {
    s.map_values(|p: (Vec<char>, WordId)| (p.0@, p.1))
}

impl View for Dictionary {
    type V = Seq<(Seq<char>, WordId)>;

    open spec fn view(&self) -> Seq<(Seq<char>, WordId)> {
        dict_view(self.words@)
    }
}

/// The entry that a name stands for: that of the first pair with the name.
pub open spec fn spec_get(v: Seq<(Seq<char>, WordId)>, k: Seq<char>) -> Option<WordId>
    decreases v.len(),
{
    if v.len() == 0 {
        None
    } else if v[0].0 == k {
        Some(v[0].1)
    } else {
        spec_get(v.drop_first(), k)
    }
}

/// The dictionary with the name standing for the entry: the first pair with
/// the name is replaced, or the pair is added at the end.
pub open spec fn spec_insert(v: Seq<(Seq<char>, WordId)>, k: Seq<char>, val: WordId) -> Seq<(Seq<char>, WordId)>
    decreases v.len(),
{
    if v.len() == 0 {
        seq![(k, val)]
    } else if v[0].0 == k {
        v.update(0, (k, val))
    } else {
        seq![v[0]] + spec_insert(v.drop_first(), k, val)
    }
}

proof fn lemma_insert_at(v: Seq<(Seq<char>, WordId)>, i: int, k: Seq<char>, val: WordId)
    requires
        0 <= i < v.len(),
        v[i].0 == k,
        forall|j: int| 0 <= j < i ==> v[j].0 != k,
    ensures
        spec_insert(v, k, val) == v.update(i, (k, val)),
    decreases v.len(),
{
    if i > 0 {
        lemma_insert_at(v.drop_first(), i - 1, k, val);
        assert(seq![v[0]] + v.drop_first().update(i - 1, (k, val)) =~= v.update(i, (k, val)));
    }
}

proof fn lemma_insert_end(v: Seq<(Seq<char>, WordId)>, k: Seq<char>, val: WordId)
    requires
        forall|j: int| 0 <= j < v.len() ==> v[j].0 != k,
    ensures
        spec_insert(v, k, val) == v.push((k, val)),
    decreases v.len(),
{
    if v.len() > 0 {
        lemma_insert_end(v.drop_first(), k, val);
        assert(seq![v[0]] + v.drop_first().push((k, val)) =~= v.push((k, val)));
    }
}

/// After a name is made to stand for an entry, looking it up gives that
/// entry, and every other name stands for what it stood for before.
pub proof fn law_lookup_after_insert(v: Seq<(Seq<char>, WordId)>, k: Seq<char>, val: WordId, other: Seq<char>)
    ensures
        spec_get(spec_insert(v, k, val), k) == Some(val),
        other != k ==> spec_get(spec_insert(v, k, val), other) == spec_get(v, other),
    decreases v.len(),
{
    if v.len() == 0 {
        assert(seq![(k, val)].drop_first() == Seq::<(Seq<char>, WordId)>::empty());
        assert(spec_get(Seq::<(Seq<char>, WordId)>::empty(), other) is None);
    } else if v[0].0 != k {
        law_lookup_after_insert(v.drop_first(), k, val, other);
        let w = seq![v[0]] + spec_insert(v.drop_first(), k, val);
        assert(w[0] == v[0]);
        assert(w.drop_first() == spec_insert(v.drop_first(), k, val));
        assert(spec_insert(v, k, val) == w);
        if other != k {
            if v[0].0 == other {
                assert(spec_get(w, other) == Some(v[0].1));
            } else {
                assert(spec_get(w, other) == spec_get(w.drop_first(), other));
            }
        }
    } else {
        let w = v.update(0, (k, val));
        assert(w[0] == (k, val));
        assert(w.drop_first() == v.drop_first());
        assert(spec_insert(v, k, val) == w);
        if other != k {
            assert(spec_get(w, other) == spec_get(w.drop_first(), other));
        }
    }
}

/// No name occurs twice.
pub open spec fn unique_keys(v: Seq<(Seq<char>, WordId)>) -> bool {
    forall|i: int, j: int| 0 <= i < v.len() && 0 <= j < v.len() && i != j ==> #[trigger] v[i].0 != #[trigger] v[j].0
}

/// Making a name stand for an entry keeps every name occurring once, and
/// the names are those before, with the new one added at the end if it
/// was not there.
pub proof fn law_insert_keeps_unique_keys(v: Seq<(Seq<char>, WordId)>, k: Seq<char>, val: WordId)
    requires
        unique_keys(v),
    ensures
        unique_keys(spec_insert(v, k, val)),
        (exists|i: int| 0 <= i < v.len() && v[i].0 == k) ==> spec_insert(v, k, val).len() == v.len(),
        (forall|i: int| 0 <= i < v.len() ==> v[i].0 != k) ==> spec_insert(v, k, val) == v.push((k, val)),
{
    if exists|i: int| 0 <= i < v.len() && v[i].0 == k {
        let i = choose|i: int| 0 <= i < v.len() && v[i].0 == k;
        assert forall|j: int| 0 <= j < i implies v[j].0 != k by {}
        lemma_insert_at(v, i, k, val);
        let w = v.update(i, (k, val));
        assert forall|a: int, b: int| 0 <= a < w.len() && 0 <= b < w.len() && a != b implies #[trigger] w[a].0 != #[trigger] w[b].0 by {
            assert(w[a].0 == v[a].0);
            assert(w[b].0 == v[b].0);
        }
    } else {
        lemma_insert_end(v, k, val);
        let w = v.push((k, val));
        assert forall|a: int, b: int| 0 <= a < w.len() && 0 <= b < w.len() && a != b implies #[trigger] w[a].0 != #[trigger] w[b].0 by {
            if a < v.len() && b < v.len() {
                assert(w[a] == v[a] && w[b] == v[b]);
            } else if a < v.len() {
                assert(w[a] == v[a]);
            } else if b < v.len() {
                assert(w[b] == v[b]);
            }
        }
    }
}

/// Looks a name up: its position, if it is there.
fn position(words: &Vec<(Vec<char>, WordId)>, key: &[char]) -> (r: Option<usize>)
    ensures
        match r {
            Some(i) => i < words@.len() && words@[i as int].0@ == key@ && spec_get(dict_view(words@), key@)
                == Some(words@[i as int].1) && forall|j: int| 0 <= j < i ==> words@[j].0@ != key@,
            None => spec_get(dict_view(words@), key@) is None && forall|j: int|
                0 <= j < words@.len() ==> words@[j].0@ != key@,
        },
{
    let ghost v = dict_view(words@);
    let mut i: usize = 0;
    assert(v.subrange(0, v.len() as int) == v);
    while i < words.len()
        invariant
            i <= words@.len(),
            v == dict_view(words@),
            forall|j: int| 0 <= j < i ==> words@[j].0@ != key@,
            spec_get(v, key@) == spec_get(v.subrange(i as int, v.len() as int), key@),
        decreases words@.len() - i,
    {
        let ghost rest = v.subrange(i as int, v.len() as int);
        assert(rest[0] == (words@[i as int].0@, words@[i as int].1));
        if chars_eq(words[i].0.as_slice(), key) {
            return Some(i);
        }
        assert(rest.drop_first() == v.subrange(i + 1, v.len() as int));
        i = i + 1;
    }
    None
}

impl Dictionary {
    /// An empty dictionary.
    pub fn new() -> (r: Dictionary)
        ensures
            r@ == Seq::<(Seq<char>, WordId)>::empty(),
    {
        Dictionary { words: Vec::new() }
    }

    /// Makes the name stand for the entry, in place of what it stood for.
    pub fn insert(&mut self, key: &[char], val: WordId)
        ensures
            final(self)@ == spec_insert(old(self)@, key@, val),
            unique_keys(old(self)@) ==> unique_keys(final(self)@),
    {
        proof {
            if unique_keys(self@) {
                law_insert_keeps_unique_keys(self@, key@, val);
            }
        }
        let ghost v = self@;
        let p = (copy_chars(key), val);
        match position(&self.words, key) {
            Some(i) => {
                proof {
                    lemma_insert_at(v, i as int, key@, val);
                }
                self.words.set(i, p);
                assert(self@ =~= v.update(i as int, (key@, val)));
            },
            None => {
                proof {
                    lemma_insert_end(v, key@, val);
                }
                self.words.push(p);
                assert(self@ =~= v.push((key@, val)));
            },
        }
    }

    /// The entry that the name stands for (see `lookup`).
    pub fn get(&self, key: &[char]) -> (r: Option<WordId>)
        ensures
            r == spec_get(self@, key@),
    {
        self.lookup(key)
    }

    /// The entry that the name stands for.
    pub fn lookup(&self, key: &[char]) -> (r: Option<WordId>)
        ensures
            r == spec_get(self@, key@),
    {
        match position(&self.words, key) {
            Some(i) => Some(self.words[i].1),
            None => None,
        }
    }

    /// The names in the dictionary, in order.
    pub fn keys(&self) -> (r: Vec<Vec<char>>)
        ensures
            r@.len() == self@.len(),
            forall|i: int| 0 <= i < r@.len() ==> #[trigger] r@[i]@ == self@[i].0,
    {
        let mut out: Vec<Vec<char>> = Vec::new();
        let mut i: usize = 0;
        while i < self.words.len()
            invariant
                i <= self.words@.len(),
                out@.len() == i,
                forall|j: int| 0 <= j < i ==> #[trigger] out@[j]@ == self.words@[j].0@,
            decreases self.words@.len() - i,
        {
            out.push(copy_chars(self.words[i].0.as_slice()));
            i = i + 1;
        }
        out
    }
}

} // verus!
