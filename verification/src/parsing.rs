//! Splitting source text into tokens.
//!
//! Tokens are separated by white space. A token that starts with `"` runs up
//! to and including the next `"` (or to the end of the input), so string
//! literals may contain white space. The parentheses `(` and `)` are tokens of
//! their own and also end a word, so that stack effects such as
//! `(a b -- b a)` or `f(..a -- ..b)` can be written without extra spaces.
use vstd::prelude::*;
use crate::text::{is_ws, is_whitespace, chars_of, string_of, slice_chars};

verus! {

/// A parenthesis, which always forms a token of its own.
pub open spec fn is_paren(c: char) -> bool {
    c == '(' || c == ')'
}

/// The first index at or after `i` that is not white space.
pub open spec fn skip_ws(s: Seq<char>, i: int) -> int
    decreases s.len() - i,
{
    if 0 <= i < s.len() && is_ws(s[i]) {
        skip_ws(s, i + 1)
    } else {
        i
    }
}

/// The end of a word that starts at `i`.
pub open spec fn word_end(s: Seq<char>, i: int) -> int
    decreases s.len() - i,
{
    if 0 <= i < s.len() && !is_ws(s[i]) && !is_paren(s[i]) {
        word_end(s, i + 1)
    } else {
        i
    }
}

/// The first `"` at or after `i`, or the end of the input.
pub open spec fn quote_end(s: Seq<char>, i: int) -> int
    decreases s.len() - i,
{
    if 0 <= i < s.len() && s[i] != '"' {
        quote_end(s, i + 1)
    } else {
        i
    }
}

/// The end of the token that starts at `a`.
pub open spec fn token_end(s: Seq<char>, a: int) -> int {
    if s[a] == '"' {
        let q = quote_end(s, a + 1);
        if q < s.len() {
            q + 1
        } else {
            s.len() as int
        }
    } else if is_paren(s[a]) {
        a + 1
    } else {
        word_end(s, a)
    }
}

/// The tokens of `s` from index `i` on.
pub open spec fn tokens_from(s: Seq<char>, i: int) -> Seq<Seq<char>>
    decreases s.len() - i,
{
    let a = skip_ws(s, i);
    if a < 0 || a >= s.len() {
        Seq::empty()
    } else {
        let b = token_end(s, a);
        if b <= i || b > s.len() {
            Seq::empty()
        } else {
            seq![s.subrange(a, b)] + tokens_from(s, b)
        }
    }
}

/// The tokens of `s`.
pub open spec fn spec_tokens(s: Seq<char>) -> Seq<Seq<char>> {
    tokens_from(s, 0)
}

proof fn lemma_skip_ws(s: Seq<char>, i: int)
    requires
        0 <= i <= s.len(),
    ensures
        i <= skip_ws(s, i) <= s.len(),
        skip_ws(s, i) < s.len() ==> !is_ws(s[skip_ws(s, i)]),
    decreases s.len() - i,
{
    if i < s.len() && is_ws(s[i]) {
        lemma_skip_ws(s, i + 1);
    }
}

proof fn lemma_word_end(s: Seq<char>, i: int)
    requires
        0 <= i <= s.len(),
    ensures
        i <= word_end(s, i) <= s.len(),
    decreases s.len() - i,
{
    if i < s.len() && !is_ws(s[i]) && !is_paren(s[i]) {
        lemma_word_end(s, i + 1);
    }
}

proof fn lemma_quote_end(s: Seq<char>, i: int)
    requires
        0 <= i <= s.len(),
    ensures
        i <= quote_end(s, i) <= s.len(),
    decreases s.len() - i,
{
    if i < s.len() && s[i] != '"' {
        lemma_quote_end(s, i + 1);
    }
}

proof fn lemma_token_end(s: Seq<char>, a: int)
    requires
        0 <= a < s.len(),
        !is_ws(s[a]),
    ensures
        a < token_end(s, a) <= s.len(),
{
    lemma_quote_end(s, a + 1);
    lemma_word_end(s, a);
    if s[a] != '"' && !is_paren(s[a]) {
        assert(word_end(s, a) == word_end(s, a + 1));
        lemma_word_end(s, a + 1);
    }
}

/// Splits characters into tokens.
pub fn tokenize_chars(s: &[char]) -> (r: Vec<Vec<char>>)
    ensures
        r@.map_values(|t: Vec<char>| t@) == spec_tokens(s@),
{
    let n = s.len();
    let mut out: Vec<Vec<char>> = Vec::new();
    let mut i: usize = 0;
    while i < n
        invariant
            n == s@.len(),
            i <= n,
            out@.map_values(|t: Vec<char>| t@) + tokens_from(s@, i as int) == spec_tokens(s@),
        decreases n - i,
    {
        let ghost i0 = i as int;
        // skip white space
        let mut a: usize = i;
        while a < n && is_whitespace(s[a])
            invariant
                i <= a <= n,
                n == s@.len(),
                skip_ws(s@, i as int) == skip_ws(s@, a as int),
            decreases n - a,
        {
            a = a + 1;
        }
        proof {
            lemma_skip_ws(s@, i as int);
        }
        if a >= n {
            assert(tokens_from(s@, i as int) == Seq::<Seq<char>>::empty());
            assert(out@.map_values(|t: Vec<char>| t@) + Seq::<Seq<char>>::empty() == out@.map_values(|t: Vec<char>| t@));
            i = n;
        } else {
            assert(skip_ws(s@, a as int) == a);
            let mut b: usize;
            if s[a] == '"' {
                b = a + 1;
                while b < n && s[b] != '"'
                    invariant
                        a < b <= n,
                        n == s@.len(),
                        quote_end(s@, a + 1) == quote_end(s@, b as int),
                    decreases n - b,
                {
                    b = b + 1;
                }
                assert(quote_end(s@, b as int) == b);
                if b < n {
                    b = b + 1;
                }
            } else if s[a] == '(' || s[a] == ')' {
                b = a + 1;
            } else {
                b = a;
                while b < n && !is_whitespace(s[b]) && s[b] != '(' && s[b] != ')'
                    invariant
                        a <= b <= n,
                        n == s@.len(),
                        word_end(s@, a as int) == word_end(s@, b as int),
                    decreases n - b,
                {
                    b = b + 1;
                }
                assert(word_end(s@, b as int) == b);
            }
            proof {
                lemma_token_end(s@, a as int);
            }
            assert(b == token_end(s@, a as int));
            let tok = slice_chars(s, a, b);
            let ghost old_out = out@.map_values(|t: Vec<char>| t@);
            out.push(tok);
            assert(out@.map_values(|t: Vec<char>| t@) == old_out.push(s@.subrange(a as int, b as int)));
            assert(tokens_from(s@, i as int) == seq![s@.subrange(a as int, b as int)] + tokens_from(s@, b as int));
            assert(old_out.push(s@.subrange(a as int, b as int)) + tokens_from(s@, b as int)
                == old_out + (seq![s@.subrange(a as int, b as int)] + tokens_from(s@, b as int)));
            i = b;
        }
    }
    assert(tokens_from(s@, n as int) == Seq::<Seq<char>>::empty());
    assert(out@.map_values(|t: Vec<char>| t@) + Seq::<Seq<char>>::empty() == out@.map_values(|t: Vec<char>| t@));
    out
}

/// Splits source text into tokens.
pub fn tokenize(input: &str) -> (r: Vec<String>)
    ensures
        r@.map_values(|t: String| t@) == spec_tokens(input@),
{
    let cs = chars_of(input);
    let toks = tokenize_chars(cs.as_slice());
    let mut out: Vec<String> = Vec::new();
    let mut k: usize = 0;
    while k < toks.len()
        invariant
            k <= toks@.len(),
            out@.map_values(|t: String| t@) == toks@.map_values(|t: Vec<char>| t@).subrange(0, k as int),
        decreases toks@.len() - k,
    {
        let s = string_of(toks[k].as_slice());
        let ghost prev = out@.map_values(|t: String| t@);
        out.push(s);
        assert(out@.map_values(|t: String| t@) == prev.push(toks@[k as int]@));
        assert(toks@.map_values(|t: Vec<char>| t@).subrange(0, k + 1)
            == toks@.map_values(|t: Vec<char>| t@).subrange(0, k as int).push(toks@[k as int]@));
        k = k + 1;
    }
    assert(toks@.map_values(|t: Vec<char>| t@).subrange(0, toks@.len() as int) == toks@.map_values(|t: Vec<char>| t@));
    out
}

} // verus!
