//! Hashing of sets: order-independent, since the words of a set are
//! hashed in ascending order.

use crate::fits::{lemma_word_decides, lemma_word_of_value, Fits64};
use crate::set64::Set64;
use crate::sorting::{ascending, lemma_sorted_same, sort_distinct};
use std::hash::{Hash, Hasher};
use vstd::prelude::*;

verus! {

/// `Hash::hash` of the standard library for a `u64`: feeds the word to
/// the hasher.  Nothing is said of the state that the hasher is in
/// afterwards.
#[verifier::external_body]
fn feed<H: Hasher>(w: u64, state: &mut H) {
    w.hash(state)
}

impl<T: Fits64> Set64<T> {
    /// Returns the words of the elements in ascending order, each once.
    pub fn sorted_words(&self) -> (membs: Vec<u64>)
        ensures
            ascending(membs@),
            membs@.to_set() == self.words(),
            membs@.len() == self@.len(),
    {
        proof {
            use_type_invariant(self);
            self.lemma_words();
        }
        let mut membs: Vec<u64> = Vec::new();
        let mut it = self.iter();
        let ghost all = it.remaining();
        loop
            invariant
                membs@.len() <= all.len(),
                all.len() == self@.len(),
                all.no_duplicates(),
                all.to_set() == self@,
                it.remaining() == all.skip(membs@.len() as int),
                forall|j: int|
                    0 <= j < membs@.len() ==> (#[trigger] all[j]).encodable() && membs@[j]
                        == all[j].spec_to_u64(),
            ensures
                membs@.len() == all.len(),
            decreases all.len() - membs@.len(),
        {
            let ghost done = membs@.len() as int;
            match it.next() {
                Some(v) => {
                    proof {
                        assert(all.skip(done)[0] == all[done]);
                        assert(all.skip(done).skip(1) =~= all.skip(done + 1));
                    }
                    membs.push(v.to_u64());
                },
                None => {
                    break ;
                },
            }
        }
        proof {
            assert forall|i: int, j: int| 0 <= i < membs@.len() && 0 <= j < membs@.len() && i
                != j implies membs@[i] != membs@[j] by {
                if all[i].spec_to_u64() == all[j].spec_to_u64() {
                    lemma_word_decides(all[i], all[j]);
                }
            }
            assert forall|w: u64| membs@.to_set().contains(w) <==> self.words().contains(w) by {
                if membs@.contains(w) {
                    let j = choose|j: int| 0 <= j < membs@.len() && membs@[j] == w;
                    assert(all.to_set().contains(all[j]));
                }
                if self.words().contains(w) {
                    lemma_word_of_value::<T>(w);
                    let t = T::spec_from_u64(w);
                    assert(self@.contains(t));
                    assert(all.to_set().contains(t));
                    let j = choose|j: int| 0 <= j < all.len() && all[j] == t;
                    assert(membs@[j] == w);
                }
            }
            assert(membs@.to_set() =~= self.words());
        }
        sort_distinct(&membs)
    }
}

/// Hashing does not depend on the order in which a set was filled: two
/// sets with the same elements have the same sorted words, which is
/// what their hashes are made of.
pub proof fn lemma_order_free<T: Fits64>(a: &Set64<T>, b: &Set64<T>, x: Seq<u64>, y: Seq<u64>)
    requires
        a.wf(),
        b.wf(),
        a@ == b@,
        ascending(x),
        x.to_set() == a.words(),
        ascending(y),
        y.to_set() == b.words(),
    ensures
        x == y,
{
    a.lemma_words();
    b.lemma_words();
    assert forall|w: u64| a.words().contains(w) <==> b.words().contains(w) by {
        if a.words().contains(w) {
            lemma_word_of_value::<T>(w);
            assert(a@.contains(T::spec_from_u64(w)));
            assert(b@.contains(T::spec_from_u64(w)));
        }
        if b.words().contains(w) {
            lemma_word_of_value::<T>(w);
            assert(b@.contains(T::spec_from_u64(w)));
            assert(a@.contains(T::spec_from_u64(w)));
        }
    }
    assert(a.words() =~= b.words());
    lemma_sorted_same(x, y);
}

impl<T: Fits64> Hash for Set64<T> {
    /// Feeds the words of the elements to the hasher, in ascending
    /// order: sets with the same elements feed the same words in the
    /// same order.
    fn hash<H: Hasher>(&self, state: &mut H) {
        let membs = self.sorted_words();
        let mut i: usize = 0;
        while i < membs.len()
            invariant
                i <= membs@.len(),
            decreases membs@.len() - i,
        {
            feed(membs[i], state);
            i = i + 1;
        }
    }
}

} // verus!
