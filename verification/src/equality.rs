//! When two replicas hold the same state.

use crate::library::{lemma_names_are_keys, names, Library};
use vstd::prelude::*;
use vstd::set_lib::lemma_subset_equality;
use vstd::std_specs::cmp::PartialEqSpecImpl;

verus! {

impl PartialEq for Library {
    /// Two states are equal when they track the same names with the same
    /// contents. The order in which the names were recorded does not count.
    fn eq(&self, other: &Library) -> (same: bool) {
        let count = self.len();
        if count != other.len() {
            return false;
        }
        let mut i: usize = 0;
        while i < count
            invariant
                i <= count,
                count == self.entries().len(),
                forall|j: int|
                    0 <= j < i ==> other@.contains_key(#[trigger] self.entries()[j].0)
                        && other@[self.entries()[j].0] == self@[self.entries()[j].0],
            decreases count - i,
        {
            let theirs = other.get(self.name_at(i));
            match theirs {
                None => {
                    return false;
                },
                Some(content) => {
                    if !(*content == *self.content_at(i)) {
                        assert(content@ != self@[self.entries()[i as int].0]);
                        return false;
                    }
                    assert(content@ =~= self@[self.entries()[i as int].0]);
                },
            }
            i += 1;
        }
        proof {
            assert forall|name: Seq<char>| #[trigger]
                self@.dom().contains(name) implies other@.dom().contains(name) && other@[name]
                == self@[name] by {
                lemma_names_are_keys(self.entries(), name);
                let j = choose|j: int|
                    0 <= j < names(self.entries()).len() && names(self.entries())[j] == name;
                assert(self.entries()[j].0 == name);
            }
            assert(self@.dom().subset_of(other@.dom()));
            lemma_subset_equality(self@.dom(), other@.dom());
            assert(self@ =~= other@);
        }
        true
    }
}

impl PartialEqSpecImpl for Library {
    open spec fn obeys_eq_spec() -> bool {
        true
    }

    open spec fn eq_spec(&self, other: &Library) -> bool {
        self@ == other@
    }
}

} // verus!
