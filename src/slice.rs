use std::ops::RangeInclusive;
use vstd::prelude::*;

use crate::index::Index;
use crate::stride::{lemma_stride_between, stride, Iter};

verus! {

/// A slice expression: an optional start, an optional end and an optional
/// step.
#[derive(Debug, Clone, Copy)]
pub struct Slice {
    pub start: Index,
    pub end: Index,
    pub step: Option<isize>,
}

impl Slice {
    /// The step used for the walk: `1` when absent.
    pub open spec fn effective_step(self) -> int {
        match self.step {
            Some(s) => s as int,
            None => 1,
        }
    }

    /// Whether the walk goes towards higher positions.
    pub open spec fn ascending(self) -> bool {
        self.effective_step() >= 0
    }

    /// The lowest legal bound: `0` ascending, `-1` (before position `0`)
    /// descending.
    pub open spec fn lowest(self) -> int {
        if self.ascending() { 0 } else { -1 }
    }

    /// The highest legal bound: `len` ascending (one past the end),
    /// `len - 1` descending.
    pub open spec fn highest(self, len: int) -> int {
        if self.ascending() { len } else { len - 1 }
    }

    /// The first position of the walk over an array of length `len`.
    pub open spec fn start_bound(self, len: int) -> int {
        match self.start.bound(len, self.lowest(), self.highest(len)) {
            Some(b) => b,
            None => if self.ascending() { 0 } else { len - 1 },
        }
    }

    /// The exclusive end of the walk over an array of length `len`.
    pub open spec fn end_bound(self, len: int) -> int {
        match self.end.bound(len, self.lowest(), self.highest(len)) {
            Some(b) => b,
            None => if self.ascending() { len } else { -1 },
        }
    }

    /// The positions that the slice selects in an array of length `len`, in
    /// order.
    pub open spec fn positions(self, len: int) -> Seq<int> {
        stride(self.start_bound(len), self.end_bound(len), self.effective_step())
    }

    /// Returns a walk over the elements of `arr` that the slice selects, in
    /// order. It borrows the array and copies nothing.
    pub fn apply<'a, T>(&self, arr: &'a [T]) -> (r: Elements<'a, T>)
        ensures
            r.wf(),
            r@ == self.positions(arr@.len() as int).map_values(|p: int| arr@[p]),
    {
        let positions = self.indices(arr.len());
        let r = Elements { arr, positions };
        assert(r@ =~= self.positions(arr@.len() as int).map_values(|p: int| arr@[p]));
        r
    }

    /// Returns a walk over the positions that the slice selects in an array of
    /// length `ulen`.
    pub fn indices(&self, ulen: usize) -> (r: Iter)
        ensures
            r.wf(),
            r@ == self.positions(ulen as int),
            forall|k: int| 0 <= k < r@.len() ==> 0 <= #[trigger] r@[k] < ulen,
    {
        let len = ulen as i128;
        let step: isize = match self.step {
            Some(s) => s,
            None => 1,
        };
        let (def_start, def_end) = if step >= 0 { (0i128, len) } else { (len - 1, -1i128) };
        let (lo, hi) = if step >= 0 { (def_start, def_end) } else { (def_end, def_start) };
        let i = match self.start.to_bound(len, RangeInclusive::new(lo, hi)) {
            Some(b) => b,
            None => def_start,
        };
        let end = match self.end.to_bound(len, RangeInclusive::new(lo, hi)) {
            Some(b) => b,
            None => def_end,
        };
        let r = Iter::new(i, end, step);
        proof {
            lemma_positions_in_array(*self, ulen as int);
        }
        r
    }
}

/// A walk over the elements of an array at the positions a slice selects.
pub struct Elements<'a, T> {
    arr: &'a [T],
    positions: Iter,
}

impl<'a, T> Elements<'a, T> {
    /// The elements that are still to come.
    pub closed spec fn view(&self) -> Seq<T> {
        self.positions@.map_values(|p: int| self.arr@[p])
    }

    /// Every position still to come lies inside the array.
    pub closed spec fn wf(&self) -> bool {
        &&& self.positions.wf()
        &&& forall|k: int| 0 <= k < self.positions@.len() ==> 0 <= #[trigger] self.positions@[k] < self.arr@.len()
    }

    /// Yields a reference to the next selected element, if any.
    pub fn next(&mut self) -> (r: Option<&'a T>)
        requires
            old(self).wf(),
        ensures
            final(self).wf(),
            old(self)@.len() == 0 ==> r is None && final(self)@ == old(self)@,
            old(self)@.len() > 0 ==> r == Some(&old(self)@[0]) && final(self)@ == old(self)@.drop_first(),
    {
        match self.positions.next() {
            Some(i) => {
                assert(self@ =~= old(self)@.drop_first());
                Some(&self.arr[i])
            },
            None => None,
        }
    }
}

/// Every position a slice selects lies inside the array.
pub proof fn lemma_positions_in_array(s: Slice, len: int)
    requires
        0 <= len,
    ensures
        forall|k: int| 0 <= k < s.positions(len).len() ==> 0 <= #[trigger] s.positions(len)[k] < len,
{
    lemma_stride_between(s.start_bound(len), s.end_bound(len), s.effective_step());
}

} // verus!
