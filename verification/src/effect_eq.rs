//! `==` on stack effects is their equivalence.
use vstd::prelude::*;
use vstd::std_specs::cmp::PartialEqSpecImpl;
use crate::stack_effect::{StackEffect, effect_equiv};

verus! {

impl PartialEq for StackEffect {
    fn eq(&self, other: &StackEffect) -> (r: bool) {
        self.equivalent(other)
    }
}

impl PartialEqSpecImpl for StackEffect {
    open spec fn obeys_eq_spec() -> bool {
        true
    }

    open spec fn eq_spec(&self, other: &StackEffect) -> bool {
        effect_equiv(self@, other@)
    }
}

} // verus!
