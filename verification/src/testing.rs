//! Checks of the stack for tests.
use vstd::prelude::*;
use crate::objects::{Object, OView, view_obj, view_objs, lemma_view_objs, objects_equal, lists_equal};
use crate::state::{State, stack_view};

verus! {

impl State {
    /// Whether the stack holds exactly the expected values, bottom first.
    pub fn assert_stack(&self, expected: &Vec<Object>) -> (r: bool)
        ensures
            r == (stack_view(self.stack@) == view_objs(expected@)),
    {
        lists_equal(&self.stack, expected)
    }

    /// Whether the top of the stack holds the expected values, bottom first;
    /// only as many values as both have are compared.
    pub fn assert_stack_top(&self, expected: &Vec<Object>) -> (r: bool)
        ensures
            r == forall|k: int|
                0 <= k < self.stack@.len() && 0 <= k < expected@.len() ==> view_obj(
                    #[trigger] self.stack@[self.stack@.len() - 1 - k],
                ) == view_obj(expected@[expected@.len() - 1 - k]),
    {
        let n = self.stack.len();
        let m = expected.len();
        let mut k: usize = 0;
        while k < n && k < m
            invariant
                n == self.stack@.len(),
                m == expected@.len(),
                k <= n,
                k <= m,
                forall|j: int| 0 <= j < k ==> view_obj(#[trigger] self.stack@[n - 1 - j]) == view_obj(expected@[m - 1 - j]),
            decreases n - k,
        {
            if !objects_equal(&self.stack[n - 1 - k], &expected[m - 1 - k]) {
                return false;
            }
            k = k + 1;
        }
        true
    }

    /// Pops the top value and tells whether it is the expected one.
    pub fn assert_pop(&mut self, expected: &Object) -> (r: bool)
        ensures
            old(self).stack@.len() == 0 ==> !r && final(self).stack@ == old(self).stack@,
            old(self).stack@.len() > 0 ==> r == (view_obj(old(self).stack@.last()) == expected@) && final(self).stack@
                == old(self).stack@.drop_last(),
            final(self).modules == old(self).modules,
            final(self).input_tokens == old(self).input_tokens,
            final(self).budget == old(self).budget,
    {
        match self.stack.pop() {
            Some(item) => objects_equal(&item, expected),
            None => false,
        }
    }
}

} // verus!
