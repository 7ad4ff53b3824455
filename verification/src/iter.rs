//! Walking over the elements of a set: by reference to its cells, or
//! over cells that were taken out of it.

use crate::model::{live_from, slots};
use crate::slot::HasInvalid;
use vstd::prelude::*;

verus! {

/// Finds the first live cell at or behind cell `at`, where there is one:
/// returns its word and the cell behind it.
pub fn next_live<K: HasInvalid>(slice: &[K], at: usize, inv: u64) -> (r: (u64, usize))
    requires
        at <= slice@.len(),
        live_from(slots(slice@, slice@.len() as int), inv, at as int).len() > 0,
    ensures
        at < r.1 <= slice@.len(),
        live_from(slots(slice@, slice@.len() as int), inv, at as int)[0] == r.0,
        live_from(slots(slice@, slice@.len() as int), inv, at as int).skip(1) == live_from(
            slots(slice@, slice@.len() as int),
            inv,
            r.1 as int,
        ),
{
    let ghost t = slots(slice@, slice@.len() as int);
    let mut i = at;
    loop
        invariant
            at <= i <= slice@.len(),
            t == slots(slice@, slice@.len() as int),
            live_from(t, inv, i as int) == live_from(t, inv, at as int),
            live_from(t, inv, at as int).len() > 0,
        decreases slice@.len() - i,
    {
        let w = slice[i].to_word();
        if w != inv {
            proof {
                let rest = live_from(t, inv, i + 1);
                assert(live_from(t, inv, i as int) == seq![w] + rest);
                assert((seq![w] + rest).skip(1) =~= rest);
            }
            return (w, i + 1);
        }
        i = i + 1;
    }
}

/// An iterator for `U64Set`.
#[allow(inconsistent_fields)]
pub enum Iter<'a> {
    /// Over cells of 8 bits.
    U8 {
        /// The cells.
        slice: &'a [u8],
        /// The first cell not yet passed.
        at: usize,
        /// The number of elements still to come.
        nleft: usize,
    },
    /// Over cells of 16 bits.
    U16 {
        /// The cells.
        slice: &'a [u16],
        /// The first cell not yet passed.
        at: usize,
        /// The number of elements still to come.
        nleft: usize,
    },
    /// Over cells of 32 bits.
    U32 {
        /// The cells.
        slice: &'a [u32],
        /// The first cell not yet passed.
        at: usize,
        /// The number of elements still to come.
        nleft: usize,
    },
    /// Over cells of 64 bits.
    U64 {
        /// The word that marks an empty cell.
        invalid: u64,
        /// The cells.
        slice: &'a [u64],
        /// The first cell not yet passed.
        at: usize,
        /// The number of elements still to come.
        nleft: usize,
    },
}

impl<'a> Iter<'a> {
    /// An iterator with nothing to come.
    pub fn empty() -> (it: Self)
        ensures
            it.wf(),
            it.remaining() == Seq::<u64>::empty(),
    {
        Iter::U8 { slice: &[], at: 0, nleft: 0 }
    }

    /// The elements still to come, in the order in which they come.
    pub open spec fn remaining(&self) -> Seq<u64> {
        match *self {
            Iter::U8 { slice, at, nleft } => live_from(
                slots(slice@, slice@.len() as int),
                0xff,
                at as int,
            ),
            Iter::U16 { slice, at, nleft } => live_from(
                slots(slice@, slice@.len() as int),
                0xffff,
                at as int,
            ),
            Iter::U32 { slice, at, nleft } => live_from(
                slots(slice@, slice@.len() as int),
                0xffff_ffff,
                at as int,
            ),
            Iter::U64 { invalid, slice, at, nleft } => live_from(
                slots(slice@, slice@.len() as int),
                invalid,
                at as int,
            ),
        }
    }

    /// The invariant of the iterator: it stands at a cell or behind the
    /// last one, and counts the elements still to come.
    pub open spec fn wf(&self) -> bool {
        match *self {
            Iter::U8 { slice, at, nleft } => at <= slice@.len() && nleft == self.remaining().len(),
            Iter::U16 { slice, at, nleft } => at <= slice@.len() && nleft
                == self.remaining().len(),
            Iter::U32 { slice, at, nleft } => at <= slice@.len() && nleft
                == self.remaining().len(),
            Iter::U64 { invalid, slice, at, nleft } => at <= slice@.len() && nleft
                == self.remaining().len(),
        }
    }

    /// Returns the next element, if one is left.
    pub fn next(&mut self) -> (r: Option<u64>)
        requires
            old(self).wf(),
        ensures
            final(self).wf(),
            match r {
                None => old(self).remaining().len() == 0 && final(self).remaining()
                    == old(self).remaining(),
                Some(x) => old(self).remaining().len() > 0 && x == old(self).remaining()[0]
                    && final(self).remaining() == old(self).remaining().skip(1),
            },
    {
        match self {
            Iter::U8 { slice, at, nleft } => {
                if *nleft == 0 {
                    None
                } else {
                    let (val, behind) = next_live(*slice, *at, 0xff);
                    *at = behind;
                    *nleft = *nleft - 1;
                    Some(val)
                }
            },
            Iter::U16 { slice, at, nleft } => {
                if *nleft == 0 {
                    None
                } else {
                    let (val, behind) = next_live(*slice, *at, 0xffff);
                    *at = behind;
                    *nleft = *nleft - 1;
                    Some(val)
                }
            },
            Iter::U32 { slice, at, nleft } => {
                if *nleft == 0 {
                    None
                } else {
                    let (val, behind) = next_live(*slice, *at, 0xffff_ffff);
                    *at = behind;
                    *nleft = *nleft - 1;
                    Some(val)
                }
            },
            Iter::U64 { invalid, slice, at, nleft } => {
                if *nleft == 0 {
                    None
                } else {
                    let (val, behind) = next_live(*slice, *at, *invalid);
                    *at = behind;
                    *nleft = *nleft - 1;
                    Some(val)
                }
            },
        }
    }

    /// Returns the number of elements still to come, as the lower and
    /// the upper bound.
    pub fn size_hint(&self) -> (r: (usize, Option<usize>))
        requires
            self.wf(),
        ensures
            r.0 == self.remaining().len(),
            r.1 == Some(r.0),
    {
        match self {
            Iter::U8 { slice: _, at: _, nleft } => (*nleft, Some(*nleft)),
            Iter::U16 { slice: _, at: _, nleft } => (*nleft, Some(*nleft)),
            Iter::U32 { slice: _, at: _, nleft } => (*nleft, Some(*nleft)),
            Iter::U64 { nleft, .. } => (*nleft, Some(*nleft)),
        }
    }
}

/// A draining iterator for `U64Set`.
#[allow(inconsistent_fields)]
pub enum Drain {
    /// Over cells of 8 bits.
    U8 {
        /// The cells.
        slice: Vec<u8>,
        /// The first cell not yet passed.
        at: usize,
        /// The number of elements still to come.
        nleft: usize,
    },
    /// Over cells of 16 bits.
    U16 {
        /// The cells.
        slice: Vec<u16>,
        /// The first cell not yet passed.
        at: usize,
        /// The number of elements still to come.
        nleft: usize,
    },
    /// Over cells of 32 bits.
    U32 {
        /// The cells.
        slice: Vec<u32>,
        /// The first cell not yet passed.
        at: usize,
        /// The number of elements still to come.
        nleft: usize,
    },
    /// Over cells of 64 bits.
    U64 {
        /// The word that marks an empty cell.
        invalid: u64,
        /// The cells.
        slice: Vec<u64>,
        /// The first cell not yet passed.
        at: usize,
        /// The number of elements still to come.
        nleft: usize,
    },
}

impl Drain {
    /// An iterator with nothing to come.
    pub fn empty() -> (d: Self)
        ensures
            d.wf(),
            d.remaining() == Seq::<u64>::empty(),
    {
        Drain::U8 { slice: Vec::new(), at: 0, nleft: 0 }
    }

    /// The elements still to come, in the order in which they come.
    pub open spec fn remaining(&self) -> Seq<u64> {
        match *self {
            Drain::U8 { slice, at, nleft } => live_from(
                slots(slice@, slice@.len() as int),
                0xff,
                at as int,
            ),
            Drain::U16 { slice, at, nleft } => live_from(
                slots(slice@, slice@.len() as int),
                0xffff,
                at as int,
            ),
            Drain::U32 { slice, at, nleft } => live_from(
                slots(slice@, slice@.len() as int),
                0xffff_ffff,
                at as int,
            ),
            Drain::U64 { invalid, slice, at, nleft } => live_from(
                slots(slice@, slice@.len() as int),
                invalid,
                at as int,
            ),
        }
    }

    /// The invariant of the iterator: it stands at a cell or behind the
    /// last one, and counts the elements still to come.
    pub open spec fn wf(&self) -> bool {
        match *self {
            Drain::U8 { slice, at, nleft } => at <= slice@.len() && nleft
                == self.remaining().len(),
            Drain::U16 { slice, at, nleft } => at <= slice@.len() && nleft
                == self.remaining().len(),
            Drain::U32 { slice, at, nleft } => at <= slice@.len() && nleft
                == self.remaining().len(),
            Drain::U64 { invalid, slice, at, nleft } => at <= slice@.len() && nleft
                == self.remaining().len(),
        }
    }

    /// Returns the next element, if one is left.
    pub fn next(&mut self) -> (r: Option<u64>)
        requires
            old(self).wf(),
        ensures
            final(self).wf(),
            match r {
                None => old(self).remaining().len() == 0 && final(self).remaining()
                    == old(self).remaining(),
                Some(x) => old(self).remaining().len() > 0 && x == old(self).remaining()[0]
                    && final(self).remaining() == old(self).remaining().skip(1),
            },
    {
        match self {
            Drain::U8 { slice, at, nleft } => {
                if *nleft == 0 {
                    None
                } else {
                    let (val, behind) = next_live(slice.as_slice(), *at, 0xff);
                    *at = behind;
                    *nleft = *nleft - 1;
                    Some(val)
                }
            },
            Drain::U16 { slice, at, nleft } => {
                if *nleft == 0 {
                    None
                } else {
                    let (val, behind) = next_live(slice.as_slice(), *at, 0xffff);
                    *at = behind;
                    *nleft = *nleft - 1;
                    Some(val)
                }
            },
            Drain::U32 { slice, at, nleft } => {
                if *nleft == 0 {
                    None
                } else {
                    let (val, behind) = next_live(slice.as_slice(), *at, 0xffff_ffff);
                    *at = behind;
                    *nleft = *nleft - 1;
                    Some(val)
                }
            },
            Drain::U64 { invalid, slice, at, nleft } => {
                if *nleft == 0 {
                    None
                } else {
                    let (val, behind) = next_live(slice.as_slice(), *at, *invalid);
                    *at = behind;
                    *nleft = *nleft - 1;
                    Some(val)
                }
            },
        }
    }

    /// Returns the number of elements still to come, as the lower and
    /// the upper bound.
    pub fn size_hint(&self) -> (r: (usize, Option<usize>))
        requires
            self.wf(),
        ensures
            r.0 == self.remaining().len(),
            r.1 == Some(r.0),
    {
        match self {
            Drain::U8 { slice: _, at: _, nleft } => (*nleft, Some(*nleft)),
            Drain::U16 { slice: _, at: _, nleft } => (*nleft, Some(*nleft)),
            Drain::U32 { slice: _, at: _, nleft } => (*nleft, Some(*nleft)),
            Drain::U64 { nleft, .. } => (*nleft, Some(*nleft)),
        }
    }
}

} // verus!
