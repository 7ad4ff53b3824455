//! Heap storage for tables: boxed slices of slots.

use crate::slot::HasInvalid;
use vstd::prelude::*;

verus! {

/// `Vec::into_boxed_slice` of the standard library: the box holds the
/// elements of the vector, in their order.
#[verifier::external_body]
fn into_boxed_slice<K>(v: Vec<K>) -> (b: Box<[K]>)
    ensures
        b@ == v@,
{
    v.into_boxed_slice()
}

/// A boxed slice of `cells` cells that each hold `fill`.
pub fn filled<K: HasInvalid>(fill: K, cells: usize) -> (b: Box<[K]>)
    ensures
        b@.len() == cells,
        forall|i: int| 0 <= i < cells ==> b@[i] == fill,
{
    let mut v: Vec<K> = Vec::with_capacity(cells);
    let mut i: usize = 0;
    while i < cells
        invariant
            i <= cells,
            v@.len() == i,
            forall|j: int| 0 <= j < i ==> v@[j] == fill,
        decreases cells - i,
    {
        v.push(fill);
        i = i + 1;
    }
    into_boxed_slice(v)
}

/// A boxed slice with the cells of `v`.
pub fn copied<K: HasInvalid>(v: &[K]) -> (b: Box<[K]>)
    ensures
        b@ == v@,
{
    let n = v.len();
    let mut out: Vec<K> = Vec::with_capacity(n);
    let mut i: usize = 0;
    while i < n
        invariant
            n == v@.len(),
            i <= n,
            out@ == v@.take(i as int),
        decreases n - i,
    {
        out.push(v[i]);
        i = i + 1;
        assert(out@ =~= v@.take(i as int));
    }
    assert(out@ =~= v@);
    into_boxed_slice(out)
}

/// A vector with the first `n` cells of `v`.
pub fn prefix_vec<K: HasInvalid>(v: &[K], n: usize) -> (out: Vec<K>)
    requires
        n <= v@.len(),
    ensures
        out@ == v@.take(n as int),
{
    let mut out: Vec<K> = Vec::with_capacity(n);
    let mut i: usize = 0;
    while i < n
        invariant
            n <= v@.len(),
            i <= n,
            out@ == v@.take(i as int),
        decreases n - i,
    {
        out.push(v[i]);
        i = i + 1;
        assert(out@ =~= v@.take(i as int));
    }
    out
}

} // verus!
