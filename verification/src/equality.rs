//! Equality of sets and of maps: two are equal when they hold the same
//! elements, or the same entries, whatever form each of them has.

use crate::fits::Fits64;
use crate::set64::Set64;
use crate::u64map::U64Map;
use vstd::prelude::*;
use vstd::std_specs::cmp::PartialEqSpecImpl;

verus! {

impl<T: Fits64> PartialEq for Set64<T> {
    fn eq(&self, other: &Set64<T>) -> (r: bool) {
        proof {
            use_type_invariant(self);
            use_type_invariant(other);
            self.lemma_words();
            other.lemma_words();
        }
        if self.len() != other.len() {
            return false;
        }
        let mut it = other.iter();
        let ghost all = it.remaining();
        let ghost mut done: int = 0;
        loop
            invariant
                0 <= done <= all.len(),
                all.to_set() == other@,
                it.remaining() == all.skip(done),
                forall|j: int| 0 <= j < done ==> self@.contains(#[trigger] all[j]),
                self@.finite(),
                other@.finite(),
                self@.len() == other@.len(),
            ensures
                done == all.len(),
            decreases all.len() - done,
        {
            match it.next() {
                Some(k) => {
                    proof {
                        assert(all.skip(done)[0] == all[done]);
                        assert(all.skip(done).skip(1) =~= all.skip(done + 1));
                        assert(all.to_set().contains(all[done]));
                    }
                    if !self.contains(&k) {
                        return false;
                    }
                    proof {
                        done = done + 1;
                    }
                },
                None => {
                    break ;
                },
            }
        }
        proof {
            assert(other@.subset_of(self@)) by {
                assert forall|t: T| other@.contains(t) implies self@.contains(t) by {
                    assert(all.to_set().contains(t));
                    let j = choose|j: int| 0 <= j < all.len() && all[j] == t;
                    assert(self@.contains(all[j]));
                }
            }
            vstd::set_lib::lemma_subset_equality(other@, self@);
        }
        true
    }
}

impl<T: Fits64> PartialEqSpecImpl for Set64<T> {
    open spec fn obeys_eq_spec() -> bool {
        true
    }

    open spec fn eq_spec(&self, other: &Set64<T>) -> bool {
        self@ == other@
    }
}

impl<T: Fits64> Eq for Set64<T> {

}

impl PartialEq for U64Map {
    fn eq(&self, other: &U64Map) -> (r: bool) {
        proof {
            use_type_invariant(self);
            use_type_invariant(other);
            self.lemma_wf();
            other.lemma_wf();
        }
        if self.len() != other.len() {
            return false;
        }
        let mut it = other.iter();
        let ghost all = it.remaining();
        let ghost mut done: int = 0;
        loop
            invariant
                0 <= done <= all.len(),
                all.to_set() == other@.dom(),
                it.remaining() == all.skip(done),
                it.map() == other@,
                forall|j: int|
                    0 <= j < done ==> self@.dom().contains(#[trigger] all[j]) && self@[all[j]]
                        == other@[all[j]],
                self@.dom().finite(),
                other@.dom().finite(),
                self@.len() == other@.len(),
            ensures
                done == all.len(),
            decreases all.len() - done,
        {
            match it.next() {
                Some((k, v)) => {
                    proof {
                        assert(all.skip(done)[0] == all[done]);
                        assert(all.skip(done).skip(1) =~= all.skip(done + 1));
                    }
                    match self.get(k) {
                        Some(mine) => {
                            if mine != v {
                                return false;
                            }
                        },
                        None => {
                            return false;
                        },
                    }
                    proof {
                        done = done + 1;
                    }
                },
                None => {
                    break ;
                },
            }
        }
        proof {
            assert(other@.dom().subset_of(self@.dom())) by {
                assert forall|k: u64| other@.dom().contains(k) implies self@.dom().contains(k) by {
                    assert(all.to_set().contains(k));
                    let j = choose|j: int| 0 <= j < all.len() && all[j] == k;
                    assert(self@.dom().contains(all[j]));
                }
            }
            vstd::set_lib::lemma_subset_equality(other@.dom(), self@.dom());
            assert forall|k: u64| self@.dom().contains(k) implies self@[k] == other@[k] by {
                assert(all.to_set().contains(k));
                let j = choose|j: int| 0 <= j < all.len() && all[j] == k;
                assert(self@[all[j]] == other@[all[j]]);
            }
            assert(self@ =~= other@);
        }
        true
    }
}

impl PartialEqSpecImpl for U64Map {
    open spec fn obeys_eq_spec() -> bool {
        true
    }

    open spec fn eq_spec(&self, other: &U64Map) -> bool {
        self@ == other@
    }
}

impl Eq for U64Map {

}

} // verus!
