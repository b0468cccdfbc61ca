//! The variables of a word being compiled and where they are stored.
use vstd::prelude::*;
use crate::effect_names::names_of;
use crate::text::{chars_eq, copy_chars};

verus! {

/// The variables of a word under compilation, in order of first use; a
/// variable is stored at its position.
#[derive(Debug)]
pub struct CompilerScope {
    pub variables: Vec<Vec<char>>,
}

impl CompilerScope {
    /// No variables yet.
    pub fn new() -> (r: CompilerScope)
        ensures
            r.variables@.len() == 0,
    {
        CompilerScope { variables: Vec::new() }
    }

    /// Where the variable is stored; a new variable gets the next free
    /// location.
    pub fn get_storage_location(&mut self, var: &[char]) -> (r: usize)
        ensures
            names_of(old(self).variables@).contains(var@) ==> names_of(final(self).variables@) == names_of(
                old(self).variables@,
            ) && r < old(self).variables@.len() && names_of(old(self).variables@)[r as int] == var@
                && forall|j: int| 0 <= j < r ==> names_of(old(self).variables@)[j] != var@,
            !names_of(old(self).variables@).contains(var@) ==> names_of(final(self).variables@) == names_of(
                old(self).variables@,
            ).push(var@) && r == old(self).variables@.len(),
    {
        let mut i: usize = 0;
        while i < self.variables.len()
            invariant
                i <= self.variables@.len(),
                forall|j: int| 0 <= j < i ==> self.variables@[j]@ != var@,
            decreases self.variables@.len() - i,
        {
            if chars_eq(self.variables[i].as_slice(), var) {
                assert(names_of(self.variables@)[i as int] == var@);
                return i;
            }
            i = i + 1;
        }
        proof {
            if names_of(self.variables@).contains(var@) {
                let k = choose|k: int| 0 <= k < names_of(self.variables@).len() && names_of(self.variables@)[k] == var@;
                assert(self.variables@[k]@ == var@);
            }
        }
        let n = self.variables.len();
        let ghost before = self.variables@;
        self.variables.push(copy_chars(var));
        assert(names_of(self.variables@) =~= names_of(before).push(var@));
        n
    }

    /// Whether there are no variables.
    pub fn is_empty(&self) -> (r: bool)
        ensures
            r == (self.variables@.len() == 0),
    {
        self.variables.len() == 0
    }

    /// The number of variables.
    pub fn len(&self) -> (r: usize)
        ensures
            r == self.variables@.len(),
    {
        self.variables.len()
    }
}

} // verus!
