//! A set of values of any type that fits in 64 bits.

use crate::capacity::MAX_LEN;
use crate::fits::{lemma_word_decides, lemma_word_of_value, Fits64};
use crate::iter::{Drain, Iter};
use crate::model::lemma_take_one_more;
use crate::shape::{made_for, made_for_capacity, reserved, Shape};
use crate::u64set::U64Set;
use std::marker::PhantomData;
use vstd::prelude::*;

verus! {

/// A set type that can store any type that fits in a `u64`.  This set
/// type is very space-efficient in storing small integers, while not
/// being bad at storing large integers.
///
/// The iterators of the set (`drain()` and `iter()`) give `T` rather
/// than `&T`: the set does not store values of `T`, so there is nothing
/// to refer to, and a `T` is no larger than a pointer.
///
/// # Storage details
///
/// The set is stored as the set of the words of its elements, in one of
/// nine forms.  Which form it takes depends on the largest word and on
/// how many words there are: an array in the handle for a few words, a
/// Robin-Hood table on the heap for more, each with slots of 8, 16, 32
/// or 64 bits.
#[derive(Debug)]
pub struct Set64<T: Fits64>(U64Set, PhantomData<T>);

impl<T: Fits64> View for Set64<T> {
    type V = Set<T>;

    /// The elements: the values whose words the set holds.
    open spec fn view(&self) -> Set<T> {
        Set::new(|t: T| t.encodable() && self.words().contains(t.spec_to_u64()))
    }
}

/// Every word of `words` is the word of a value of `T`.
pub open spec fn all_from<T: Fits64>(words: Set<u64>) -> bool {
    forall|w: u64| words.contains(w) ==> exists|t: T| t.encodable() && #[trigger] t.spec_to_u64() == w
}

impl<T: Fits64> Set64<T> {
    /// The words that the set holds.
    pub closed spec fn words(&self) -> Set<u64> {
        self.0@
    }

    /// The form that the set has.
    pub closed spec fn shape(&self) -> Shape {
        self.0.shape()
    }

    /// The invariant of the set: that of the set of words, and every
    /// word it holds is the word of a value.
    #[verifier::type_invariant]
    pub closed spec fn wf(&self) -> bool {
        &&& self.0.wf()
        &&& all_from::<T>(self.0@)
    }

    /// The set has as many elements as words, finitely many, and its
    /// words are those of values.
    pub proof fn lemma_words(&self)
        requires
            self.wf(),
        ensures
            self.words().finite(),
            all_from::<T>(self.words()),
            self@.finite(),
            self@.len() == self.words().len(),
            self@ == self.words().map(|w: u64| T::spec_from_u64(w)),
    {
        self.0.lemma_wf();
        lemma_values_of_words::<T>(self.words());
    }

    /// Takes the set of words out of the set, so that it can be changed,
    /// and leaves an empty one in its place until the changed one is put
    /// back.
    fn take(&mut self) -> (inner: U64Set)
        ensures
            inner == old(self).0,
    {
        let mut inner = U64Set::with_capacity(0);
        core::mem::swap(&mut self.0, &mut inner);
        inner
    }

    /// Creates an empty set.
    pub fn default() -> (s: Self)
        ensures
            s@ == Set::<T>::empty(),
            made_for_capacity(0, s.shape()),
    {
        let s = Set64(U64Set::with_capacity(0), PhantomData);
        assert(s@ =~= Set::<T>::empty());
        s
    }

    /// Creates an empty set.
    pub fn new() -> (s: Self)
        ensures
            s@ == Set::<T>::empty(),
            made_for_capacity(0, s.shape()),
    {
        let s = Set64(U64Set::with_capacity(0), PhantomData);
        assert(s@ =~= Set::<T>::empty());
        s
    }

    /// Creates an empty set with the specified capacity.
    pub fn with_capacity(cap: usize) -> (s: Self)
        requires
            cap <= MAX_LEN,
        ensures
            s@ == Set::<T>::empty(),
            made_for_capacity(cap as int, s.shape()),
    {
        let s = Set64(U64Set::with_capacity(cap), PhantomData);
        assert(s@ =~= Set::<T>::empty());
        s
    }

    /// Creates an empty set with the specified capacity, for elements
    /// whose words are up to that of `max`.
    pub fn with_max_and_capacity(max: T, cap: usize) -> (s: Self)
        requires
            max.encodable(),
            cap <= MAX_LEN,
        ensures
            s@ == Set::<T>::empty(),
            made_for(max.spec_to_u64(), cap as int, s.shape()),
    {
        let s = Set64(U64Set::with_max_and_capacity(max.to_u64(), cap), PhantomData);
        assert(s@ =~= Set::<T>::empty());
        s
    }

    /// Reserves capacity for at least `additional` more elements to be
    /// inserted in the set. The collection may reserve more space
    /// to avoid frequent reallocations.
    pub fn reserve(&mut self, additional: usize)
        requires
            old(self)@.len() + additional <= MAX_LEN,
        ensures
            final(self)@ == old(self)@,
            reserved(
                old(self).shape(),
                old(self)@.len() as int,
                0,
                additional as int,
                final(self).shape(),
            ),
    {
        proof {
            use_type_invariant(&*self);
            self.lemma_words();
        }
        let mut inner = self.take();
        inner.reserve(additional);
        proof {
            use_type_invariant(&inner);
        }
        self.0 = inner;
    }

    /// Reserves capacity for at least `additional` more elements to
    /// be inserted in the set, with maximum value of `max`. The
    /// collection may reserve more space to avoid frequent
    /// reallocations.
    pub fn reserve_with_max(&mut self, max: T, additional: usize)
        requires
            max.encodable(),
            old(self)@.len() + additional <= MAX_LEN,
        ensures
            final(self)@ == old(self)@,
            reserved(
                old(self).shape(),
                old(self)@.len() as int,
                max.spec_to_u64(),
                additional as int,
                final(self).shape(),
            ),
    {
        proof {
            use_type_invariant(&*self);
            self.lemma_words();
        }
        let mut inner = self.take();
        inner.reserve_with_max(max.to_u64(), additional);
        proof {
            use_type_invariant(&inner);
        }
        self.0 = inner;
    }

    /// Adds a value to the set.
    ///
    /// If the set did not have this value present, `true` is returned.
    ///
    /// If the set did have this value present, `false` is returned.
    pub fn insert(&mut self, elem: T) -> (r: bool)
        requires
            elem.encodable(),
            old(self)@.len() < MAX_LEN,
        ensures
            final(self)@ == old(self)@.insert(elem),
            r == !old(self)@.contains(elem),
            final(self)@.len() == old(self)@.len() + if r {
                1int
            } else {
                0int
            },
            reserved(
                old(self).shape(),
                old(self)@.len() as int,
                elem.spec_to_u64(),
                1,
                final(self).shape(),
            ),
    {
        proof {
            use_type_invariant(&*self);
            self.lemma_words();
        }
        let mut inner = self.take();
        let r = inner.insert(elem.to_u64());
        proof {
            use_type_invariant(&inner);
            assert(all_from::<T>(inner@)) by {
                assert(elem.encodable() && elem.spec_to_u64() == elem.spec_to_u64());
            }
        }
        self.0 = inner;
        proof {
            assert forall|t: T| self@.contains(t) <==> old(self)@.insert(elem).contains(t) by {
                if t.encodable() && t.spec_to_u64() == elem.spec_to_u64() {
                    lemma_word_decides(t, elem);
                }
            }
            assert(self@ =~= old(self)@.insert(elem));
            self.lemma_words();
        }
        r
    }

    /// Returns the number of elements in the set.
    pub fn len(&self) -> (n: usize)
        ensures
            n == self@.len(),
    {
        proof {
            use_type_invariant(self);
            self.lemma_words();
        }
        self.0.len()
    }

    /// Returns true if the set contains a value.
    pub fn contains(&self, value: &T) -> (r: bool)
        requires
            value.encodable(),
        ensures
            r == self@.contains(*value),
    {
        let x = value.to_u64();
        self.0.contains(&x).is_some()
    }

    /// Removes an element, and returns true if that element was present.
    pub fn remove(&mut self, value: &T) -> (r: bool)
        requires
            value.encodable(),
        ensures
            final(self)@ == old(self)@.remove(*value),
            r == old(self)@.contains(*value),
            final(self)@.len() == old(self)@.len() - if r {
                1int
            } else {
                0int
            },
            final(self).shape() == old(self).shape(),
    {
        proof {
            use_type_invariant(&*self);
            self.lemma_words();
        }
        let x = value.to_u64();
        let mut inner = self.take();
        let r = inner.remove(&x);
        proof {
            use_type_invariant(&inner);
        }
        self.0 = inner;
        proof {
            assert forall|t: T| self@.contains(t) <==> old(self)@.remove(*value).contains(t) by {
                if t.encodable() && t.spec_to_u64() == value.spec_to_u64() {
                    lemma_word_decides(t, *value);
                }
            }
            assert(self@ =~= old(self)@.remove(*value));
            self.lemma_words();
        }
        r
    }

    /// Returns an iterator over the set: it gives every element once.
    pub fn iter(&self) -> (it: Iter64<'_, T>)
        ensures
            it.remaining().no_duplicates(),
            it.remaining().to_set() == self@,
            it.remaining().len() == self@.len(),
    {
        proof {
            use_type_invariant(self);
            self.lemma_words();
        }
        let inner = self.0.iter();
        proof {
            lemma_values_of_seq::<T>(inner.remaining());
        }
        Iter64(inner, PhantomData)
    }

    /// Clears the set, returning all elements in an iterator.
    pub fn drain(&mut self) -> (d: Drain64<T>)
        ensures
            final(self)@ == Set::<T>::empty(),
            final(self).shape() == old(self).shape(),
            d.remaining().no_duplicates(),
            d.remaining().to_set() == old(self)@,
            d.remaining().len() == old(self)@.len(),
    {
        proof {
            use_type_invariant(&*self);
            self.lemma_words();
        }
        let mut inner = self.take();
        let taken = inner.drain();
        proof {
            use_type_invariant(&inner);
        }
        self.0 = inner;
        proof {
            lemma_values_of_seq::<T>(taken.remaining());
            assert(self@ =~= Set::<T>::empty());
        }
        Drain64(taken, PhantomData)
    }
}

impl<T: Fits64> Set64<T> {
    /// Creates a set with the elements of `items`.
    pub fn from_iter(items: &[T]) -> (s: Self)
        requires
            items@.len() <= MAX_LEN,
            forall|i: int| 0 <= i < items@.len() ==> (#[trigger] items@[i]).encodable(),
        ensures
            s@ == items@.to_set(),
    {
        let mut c = Set64::with_capacity(items.len());
        let mut i: usize = 0;
        assert(c@ =~= items@.take(0).to_set());
        while i < items.len()
            invariant
                i <= items@.len() <= MAX_LEN,
                forall|j: int| 0 <= j < items@.len() ==> (#[trigger] items@[j]).encodable(),
                c@ == items@.take(i as int).to_set(),
                c@.len() <= i,
            decreases items@.len() - i,
        {
            c.insert(items[i]);
            proof {
                lemma_take_one_more(items@, i as int);
            }
            i = i + 1;
        }
        assert(items@.take(i as int) =~= items@);
        c
    }

    /// Adds a bunch of elements to the set.
    pub fn extend(&mut self, items: &[T])
        requires
            old(self)@.len() + items@.len() <= MAX_LEN,
            forall|i: int| 0 <= i < items@.len() ==> (#[trigger] items@[i]).encodable(),
        ensures
            final(self)@ == old(self)@.union(items@.to_set()),
    {
        self.reserve(items.len());
        let mut i: usize = 0;
        assert(self@ =~= old(self)@.union(items@.take(0).to_set()));
        while i < items.len()
            invariant
                i <= items@.len(),
                old(self)@.len() + items@.len() <= MAX_LEN,
                forall|j: int| 0 <= j < items@.len() ==> (#[trigger] items@[j]).encodable(),
                self@ == old(self)@.union(items@.take(i as int).to_set()),
                self@.len() <= old(self)@.len() + i,
            decreases items@.len() - i,
        {
            self.insert(items[i]);
            proof {
                lemma_take_one_more(items@, i as int);
                assert(self@ =~= old(self)@.union(items@.take(i + 1).to_set()));
            }
            i = i + 1;
        }
        assert(items@.take(i as int) =~= items@);
    }

    /// Returns the difference of `self` and `rhs` as a new `Set64<T>`.
    pub fn sub(&self, rhs: &Set64<T>) -> (s: Set64<T>)
        requires
            self@.len() <= MAX_LEN,
        ensures
            s@ == self@.difference(rhs@),
    {
        let mut s = Set64::with_capacity(self.len());
        let mut it = self.iter();
        let ghost all = it.remaining();
        let ghost mut done: int = 0;
        assert(s@ =~= all.take(0).to_set().difference(rhs@));
        loop
            invariant
                0 <= done <= all.len(),
                all.len() == self@.len(),
                self@.len() <= MAX_LEN,
                all.to_set() == self@,
                it.remaining() == all.skip(done),
                s@ == all.take(done).to_set().difference(rhs@),
                s@.len() <= done,
            ensures
                done == all.len(),
            decreases all.len() - done,
        {
            match it.next() {
                Some(v) => {
                    proof {
                        assert(all.skip(done)[0] == all[done]);
                        assert(all.skip(done).skip(1) =~= all.skip(done + 1));
                        lemma_take_one_more(all, done);
                    }
                    if !rhs.contains(&v) {
                        s.insert(v);
                    }
                    proof {
                        assert(s@ =~= all.take(done + 1).to_set().difference(rhs@));
                        done = done + 1;
                    }
                },
                None => {
                    break ;
                },
            }
        }
        assert(all.take(done) =~= all);
        s
    }

    /// Returns the union of `self` and `rhs` as a new `Set64<T>`.
    pub fn bitor(&self, rhs: &Set64<T>) -> (s: Set64<T>)
        requires
            self@.len() + rhs@.len() <= MAX_LEN,
        ensures
            s@ == self@.union(rhs@),
    {
        let mut s: Set64<T> = Set64::with_capacity(self.len() + rhs.len());
        s.pour(self);
        s.pour(rhs);
        assert(s@ =~= self@.union(rhs@));
        s
    }

    /// Adds every element of `from` to the set.
    fn pour(&mut self, from: &Set64<T>)
        requires
            old(self)@.len() + from@.len() <= MAX_LEN,
        ensures
            final(self)@ == old(self)@.union(from@),
            final(self)@.len() <= old(self)@.len() + from@.len(),
    {
        let mut it = from.iter();
        let ghost all = it.remaining();
        let ghost mut done: int = 0;
        assert(self@ =~= old(self)@.union(all.take(0).to_set()));
        loop
            invariant
                0 <= done <= all.len(),
                all.len() == from@.len(),
                old(self)@.len() + from@.len() <= MAX_LEN,
                all.to_set() == from@,
                it.remaining() == all.skip(done),
                self@ == old(self)@.union(all.take(done).to_set()),
                self@.len() <= old(self)@.len() + done,
            ensures
                done == all.len(),
            decreases all.len() - done,
        {
            match it.next() {
                Some(v) => {
                    proof {
                        assert(all.skip(done)[0] == all[done]);
                        assert(all.skip(done).skip(1) =~= all.skip(done + 1));
                        lemma_take_one_more(all, done);
                    }
                    self.insert(v);
                    proof {
                        assert(self@ =~= old(self)@.union(all.take(done + 1).to_set()));
                        done = done + 1;
                    }
                },
                None => {
                    break ;
                },
            }
        }
        assert(all.take(done) =~= all);
    }
}

impl<T: Fits64> Clone for Set64<T> {
    /// A set with the same elements, in the same form.
    fn clone(&self) -> (s: Self)
        ensures
            s@ == self@,
            s.shape() == self.shape(),
    {
        proof {
            use_type_invariant(self);
        }
        let inner = self.0.clone();
        proof {
            use_type_invariant(&inner);
        }
        let s = Set64(inner, PhantomData);
        assert(s@ =~= self@);
        s
    }
}

/// The values of a set of words that all come from values: as many as
/// the words, and the set of the values whose words the set holds.
pub proof fn lemma_values_of_words<T: Fits64>(words: Set<u64>)
    requires
        words.finite(),
        all_from::<T>(words),
    ensures
        words.map(|w: u64| T::spec_from_u64(w)).finite(),
        words.map(|w: u64| T::spec_from_u64(w)).len() == words.len(),
        words.map(|w: u64| T::spec_from_u64(w)) == Set::new(
            |t: T| t.encodable() && words.contains(t.spec_to_u64()),
        ),
{
    let f = |w: u64| T::spec_from_u64(w);
    let values = Set::new(|t: T| t.encodable() && words.contains(t.spec_to_u64()));
    assert forall|t: T| words.map(f).contains(t) <==> values.contains(t) by {
        if words.map(f).contains(t) {
            let w = choose|w: u64| words.contains(w) && f(w) == t;
            lemma_word_of_value::<T>(w);
        }
        if values.contains(t) {
            t.lemma_round_trip();
            assert(words.contains(t.spec_to_u64()) && f(t.spec_to_u64()) == t);
        }
    }
    assert(words.map(f) =~= values);
    assert(vstd::relations::injective_on(f, words)) by {
        assert forall|a: u64, b: u64|
            words.contains(a) && words.contains(b) && #[trigger] f(a) == #[trigger] f(
                b,
            ) implies a == b by {
            lemma_word_of_value::<T>(a);
            lemma_word_of_value::<T>(b);
        }
    }
    vstd::set_lib::lemma_map_size(words, words.map(f), f);
}

/// The values of a sequence of distinct words that all come from
/// values: distinct, and the set of the values whose words the sequence
/// holds.
pub proof fn lemma_values_of_seq<T: Fits64>(words: Seq<u64>)
    requires
        words.no_duplicates(),
        all_from::<T>(words.to_set()),
    ensures
        words.map_values(|w: u64| T::spec_from_u64(w)).no_duplicates(),
        words.map_values(|w: u64| T::spec_from_u64(w)).to_set() == Set::new(
            |t: T| t.encodable() && words.to_set().contains(t.spec_to_u64()),
        ),
{
    let f = |w: u64| T::spec_from_u64(w);
    let values = words.map_values(f);
    let want = Set::new(|t: T| t.encodable() && words.to_set().contains(t.spec_to_u64()));
    assert forall|i: int, j: int| 0 <= i < values.len() && 0 <= j < values.len() && i
        != j implies values[i] != values[j] by {
        assert(words.to_set().contains(words[i]));
        assert(words.to_set().contains(words[j]));
        lemma_word_of_value::<T>(words[i]);
        lemma_word_of_value::<T>(words[j]);
    }
    assert forall|t: T| values.to_set().contains(t) <==> want.contains(t) by {
        if values.contains(t) {
            let i = choose|i: int| 0 <= i < values.len() && values[i] == t;
            assert(words.to_set().contains(words[i]));
            lemma_word_of_value::<T>(words[i]);
        }
        if want.contains(t) {
            t.lemma_round_trip();
            let i = choose|i: int| 0 <= i < words.len() && words[i] == t.spec_to_u64();
            assert(values[i] == t);
        }
    }
    assert(values.to_set() =~= want);
}

/// An iterator.
pub struct Iter64<'a, T: Fits64>(Iter<'a>, PhantomData<T>);

impl<'a, T: Fits64> Iter64<'a, T> {
    /// The words of the elements still to come.
    pub closed spec fn words(&self) -> Seq<u64> {
        self.0.remaining()
    }

    /// The elements still to come, in the order in which they come.
    pub open spec fn remaining(&self) -> Seq<T> {
        self.words().map_values(|w: u64| T::spec_from_u64(w))
    }

    /// The invariant of the iterator: that of the iterator over the
    /// words, and every word to come is the word of a value.
    #[verifier::type_invariant]
    pub closed spec fn wf(&self) -> bool {
        &&& self.0.wf()
        &&& all_from::<T>(self.0.remaining().to_set())
    }

    /// Returns the next element, if one is left.
    pub fn next(&mut self) -> (r: Option<T>)
        ensures
            match r {
                None => old(self).remaining().len() == 0 && final(self).remaining()
                    == old(self).remaining(),
                Some(x) => {
                    &&& old(self).remaining().len() > 0
                    &&& x == old(self).remaining()[0]
                    &&& x.encodable()
                    &&& final(self).remaining() == old(self).remaining().skip(1)
                },
            },
    {
        proof {
            use_type_invariant(&*self);
        }
        let ghost before = self.0.remaining();
        let mut inner = Iter::empty();
        core::mem::swap(&mut self.0, &mut inner);
        let word = inner.next();
        proof {
            if word.is_some() {
                assert(before.to_set().contains(before[0]));
                assert forall|w: u64| before.skip(1).to_set().contains(w) implies before.to_set().contains(
                    w,
                ) by {
                    let i = choose|i: int| 0 <= i < before.skip(1).len() && before.skip(1)[i] == w;
                    assert(before[i + 1] == w);
                }
                assert(before.skip(1).map_values(|w: u64| T::spec_from_u64(w))
                    =~= before.map_values(|w: u64| T::spec_from_u64(w)).skip(1));
            }
            assert(all_from::<T>(inner.remaining().to_set())) by {
                assert forall|w: u64| inner.remaining().to_set().contains(w) implies exists|t: T|
                    t.encodable() && #[trigger] t.spec_to_u64() == w by {
                    assert(before.to_set().contains(w));
                }
            }
        }
        self.0 = inner;
        proof {
            if word.is_some() {
                lemma_word_of_value::<T>(before[0]);
            }
        }
        match word {
            Some(x) => Some(T::from_u64(x)),
            None => None,
        }
    }

    /// Returns the number of elements still to come, as the lower and
    /// the upper bound.
    pub fn size_hint(&self) -> (r: (usize, Option<usize>))
        ensures
            r.0 == self.remaining().len(),
            r.1 == Some(r.0),
    {
        proof {
            use_type_invariant(self);
        }
        self.0.size_hint()
    }
}

/// A drainer.
pub struct Drain64<T: Fits64>(Drain, PhantomData<T>);

impl<T: Fits64> Drain64<T> {
    /// The words of the elements still to come.
    pub closed spec fn words(&self) -> Seq<u64> {
        self.0.remaining()
    }

    /// The elements still to come, in the order in which they come.
    pub open spec fn remaining(&self) -> Seq<T> {
        self.words().map_values(|w: u64| T::spec_from_u64(w))
    }

    /// The invariant of the iterator: that of the iterator over the
    /// words, and every word to come is the word of a value.
    #[verifier::type_invariant]
    pub closed spec fn wf(&self) -> bool {
        &&& self.0.wf()
        &&& all_from::<T>(self.0.remaining().to_set())
    }

    /// Returns the next element, if one is left.
    pub fn next(&mut self) -> (r: Option<T>)
        ensures
            match r {
                None => old(self).remaining().len() == 0 && final(self).remaining()
                    == old(self).remaining(),
                Some(x) => {
                    &&& old(self).remaining().len() > 0
                    &&& x == old(self).remaining()[0]
                    &&& x.encodable()
                    &&& final(self).remaining() == old(self).remaining().skip(1)
                },
            },
    {
        proof {
            use_type_invariant(&*self);
        }
        let ghost before = self.0.remaining();
        let mut inner = Drain::empty();
        core::mem::swap(&mut self.0, &mut inner);
        let word = inner.next();
        proof {
            if word.is_some() {
                assert(before.to_set().contains(before[0]));
                assert forall|w: u64| before.skip(1).to_set().contains(w) implies before.to_set().contains(
                    w,
                ) by {
                    let i = choose|i: int| 0 <= i < before.skip(1).len() && before.skip(1)[i] == w;
                    assert(before[i + 1] == w);
                }
                assert(before.skip(1).map_values(|w: u64| T::spec_from_u64(w))
                    =~= before.map_values(|w: u64| T::spec_from_u64(w)).skip(1));
            }
            assert(all_from::<T>(inner.remaining().to_set())) by {
                assert forall|w: u64| inner.remaining().to_set().contains(w) implies exists|t: T|
                    t.encodable() && #[trigger] t.spec_to_u64() == w by {
                    assert(before.to_set().contains(w));
                }
            }
        }
        self.0 = inner;
        proof {
            if word.is_some() {
                lemma_word_of_value::<T>(before[0]);
            }
        }
        match word {
            Some(x) => Some(T::from_u64(x)),
            None => None,
        }
    }

    /// Returns the number of elements still to come, as the lower and
    /// the upper bound.
    pub fn size_hint(&self) -> (r: (usize, Option<usize>))
        ensures
            r.0 == self.remaining().len(),
            r.1 == Some(r.0),
    {
        proof {
            use_type_invariant(self);
        }
        self.0.size_hint()
    }
}

} // verus!
