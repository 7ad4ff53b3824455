//! A set of `usize` that is compact in size.

use crate::capacity::MAX_LEN;
use crate::iter::Iter;
use crate::shape::{has_room, made_for, made_for_capacity, max_of, reserved, Shape};
use crate::u64set::U64Set;
use vstd::prelude::*;

verus! {

/// A set of `usize` elements.
#[derive(Debug)]
pub struct USizeSet {
    v: U64Set,
}

impl View for USizeSet {
    type V = Set<usize>;

    /// The elements: the values that the set holds as 64-bit words.
    open spec fn view(&self) -> Set<usize> {
        Set::new(|x: usize| self.words().contains(x as u64))
    }
}

impl USizeSet {
    /// The elements as 64-bit words.
    pub closed spec fn words(&self) -> Set<u64> {
        self.v@
    }

    /// The form that the set has.
    pub closed spec fn shape(&self) -> Shape {
        self.v.shape()
    }

    /// The invariant of the set: it holds no word beyond `usize`, and the
    /// set of its words is in order.
    #[verifier::type_invariant]
    pub closed spec fn wf(&self) -> bool {
        &&& self.v.wf()
        &&& forall|w: u64| self.v@.contains(w) ==> w <= usize::MAX
    }

    /// The set has as many elements as words, finitely many.
    pub proof fn lemma_words(&self)
        requires
            self.wf(),
        ensures
            self.words().finite(),
            self@.finite(),
            self@.len() == self.words().len(),
    {
        self.v.lemma_wf();
        let f = |w: u64| w as usize;
        assert(self.words().map(f) =~= self@) by {
            assert forall|x: usize| self.words().map(f).contains(x) <==> self@.contains(x) by {
                if self.words().map(f).contains(x) {
                    let w = choose|w: u64| self.words().contains(w) && f(w) == x;
                    assert(w == x as u64);
                }
                if self@.contains(x) {
                    assert(self.words().contains(x as u64) && f(x as u64) == x);
                }
            }
        }
        assert(vstd::relations::injective_on(f, self.words()));
        vstd::set_lib::lemma_map_size(self.words(), self@, f);
    }

    /// Takes the set of words out of the set, so that it can be changed,
    /// and leaves an empty one in its place until the changed one is put
    /// back.
    fn take(&mut self) -> (inner: U64Set)
        ensures
            inner == old(self).v,
    {
        let mut inner = U64Set::with_capacity(0);
        core::mem::swap(&mut self.v, &mut inner);
        inner
    }

    /// Creates an empty set.
    pub fn default() -> (s: USizeSet)
        ensures
            s@ == Set::<usize>::empty(),
            made_for_capacity(0, s.shape()),
    {
        Self::with_capacity(0)
    }

    /// Creates an empty set.
    pub fn new() -> (s: USizeSet)
        ensures
            s@ == Set::<usize>::empty(),
            made_for_capacity(0, s.shape()),
    {
        USizeSet::with_capacity(0)
    }

    /// Creates an empty set with the specified capacity.
    pub fn with_capacity(cap: usize) -> (s: USizeSet)
        requires
            cap <= MAX_LEN,
        ensures
            s@ == Set::<usize>::empty(),
            made_for_capacity(cap as int, s.shape()),
    {
        let s = USizeSet { v: U64Set::with_capacity(cap) };
        assert(s@ =~= Set::<usize>::empty());
        s
    }

    /// Creates an empty set with the specified capacity, for elements up
    /// to `max`.
    pub fn with_max_and_capacity(max: usize, cap: usize) -> (s: USizeSet)
        requires
            cap <= MAX_LEN,
        ensures
            s@ == Set::<usize>::empty(),
            made_for(max as u64, cap as int, s.shape()),
    {
        let s = USizeSet { v: U64Set::with_max_and_capacity(max as u64, cap) };
        assert(s@ =~= Set::<usize>::empty());
        s
    }

    /// Returns the number of elements in the set.
    pub fn len(&self) -> (n: usize)
        ensures
            n == self@.len(),
    {
        proof {
            use_type_invariant(self);
            self.lemma_words();
        }
        self.v.len()
    }

    /// Reserves capacity for at least `additional` more elements to be
    /// inserted in the set. The collection may reserve more space
    /// to avoid frequent reallocations.
    pub fn reserve(&mut self, additional: usize)
        requires
            old(self)@.len() + additional <= MAX_LEN,
        ensures
            final(self)@ == old(self)@,
            reserved(
                old(self).shape(),
                old(self)@.len() as int,
                0,
                additional as int,
                final(self).shape(),
            ),
            has_room(final(self).shape(), final(self)@.len() as int, additional as int),
    {
        proof {
            use_type_invariant(&*self);
            self.lemma_words();
        }
        let mut inner = self.take();
        inner.reserve(additional);
        proof {
            use_type_invariant(&inner);
        }
        self.v = inner;
        proof {
            self.lemma_words();
        }
    }

    /// Reserves capacity for at least `additional` more elements to
    /// be inserted in the set, with maximum value of `max`. The
    /// collection may reserve more space to avoid frequent
    /// reallocations.
    pub fn reserve_with_max(&mut self, max: usize, additional: usize)
        requires
            old(self)@.len() + additional <= MAX_LEN,
        ensures
            final(self)@ == old(self)@,
            reserved(
                old(self).shape(),
                old(self)@.len() as int,
                max as u64,
                additional as int,
                final(self).shape(),
            ),
            max <= max_of(final(self).shape()),
            has_room(final(self).shape(), final(self)@.len() as int, additional as int),
    {
        proof {
            use_type_invariant(&*self);
            self.lemma_words();
        }
        let mut inner = self.take();
        inner.reserve_with_max(max as u64, additional);
        proof {
            use_type_invariant(&inner);
        }
        self.v = inner;
        proof {
            self.lemma_words();
        }
    }

    /// Returns the largest element that the set admits in the form it
    /// has, and the number of elements that it can hold in that form.
    pub fn max_and_cap(&self) -> (r: (usize, usize))
        ensures
            r.0 == if max_of(self.shape()) <= usize::MAX {
                max_of(self.shape()) as usize
            } else {
                usize::MAX
            },
            has_room(self.shape(), r.1 as int, 0),
            !has_room(self.shape(), r.1 + 1, 0),
    {
        let max = self.v.current_max();
        let max = if max > usize::MAX as u64 {
            usize::MAX
        } else {
            max as usize
        };
        (max, self.v.capacity())
    }

    /// Adds a value to the set.
    ///
    /// If the set did not have this value present, `true` is returned.
    ///
    /// If the set did have this value present, `false` is returned.
    pub fn insert(&mut self, elem: usize) -> (r: bool)
        requires
            old(self)@.len() < MAX_LEN,
        ensures
            final(self)@ == old(self)@.insert(elem),
            r == !old(self)@.contains(elem),
            final(self)@.len() == old(self)@.len() + if r {
                1int
            } else {
                0int
            },
            reserved(old(self).shape(), old(self)@.len() as int, elem as u64, 1, final(self).shape()),
    {
        self.reserve_with_max(elem, 1);
        self.insert_unchecked(elem)
    }

    /// Adds a value to a set that admits it and has room for it.
    pub fn insert_unchecked(&mut self, value: usize) -> (r: bool)
        requires
            value <= max_of(old(self).shape()),
            has_room(old(self).shape(), old(self)@.len() as int, 1),
        ensures
            final(self)@ == old(self)@.insert(value),
            r == !old(self)@.contains(value),
            final(self)@.len() == old(self)@.len() + if r {
                1int
            } else {
                0int
            },
            final(self).shape() == old(self).shape(),
    {
        proof {
            use_type_invariant(&*self);
            self.lemma_words();
        }
        let mut inner = self.take();
        let r = inner.insert_unchecked(value as u64).is_ok();
        proof {
            use_type_invariant(&inner);
            inner.lemma_wf();
        }
        self.v = inner;
        proof {
            assert(self@ =~= old(self)@.insert(value));
            self.lemma_words();
        }
        r
    }

    /// Returns true if the set contains a value.
    pub fn contains(&self, value: &usize) -> (r: bool)
        ensures
            r == self@.contains(*value),
    {
        let value = *value as u64;
        self.v.contains(&value).is_some()
    }

    /// Returns an iterator over the set: it gives the word of every
    /// element once.
    pub fn iter(&self) -> (it: Iter<'_>)
        ensures
            it.wf(),
            it.remaining().no_duplicates(),
            it.remaining().to_set() == self.words(),
            it.remaining().len() == self@.len(),
    {
        proof {
            use_type_invariant(self);
            self.lemma_words();
        }
        self.v.iter()
    }

    /// Removes an element, and returns true if that element was present.
    pub fn remove(&mut self, value: &usize) -> (r: bool)
        ensures
            final(self)@ == old(self)@.remove(*value),
            r == old(self)@.contains(*value),
            final(self)@.len() == old(self)@.len() - if r {
                1int
            } else {
                0int
            },
            final(self).shape() == old(self).shape(),
    {
        proof {
            use_type_invariant(&*self);
            self.lemma_words();
        }
        let word = *value as u64;
        let mut inner = self.take();
        let r = inner.remove(&word);
        proof {
            use_type_invariant(&inner);
        }
        self.v = inner;
        proof {
            assert(self@ =~= old(self)@.remove(*value));
            self.lemma_words();
        }
        r
    }
}

impl Clone for USizeSet {
    /// A set with the same elements, in the same form.
    fn clone(&self) -> (s: Self)
        ensures
            s@ == self@,
            s.shape() == self.shape(),
    {
        proof {
            use_type_invariant(self);
        }
        let inner = self.v.clone();
        proof {
            use_type_invariant(&inner);
        }
        let s = USizeSet { v: inner };
        assert(s@ =~= self@);
        s
    }
}

} // verus!
