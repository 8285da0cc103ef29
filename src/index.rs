use std::ops::RangeInclusive;
use vstd::prelude::*;

verus! {

/// Relies on `RangeInclusive::start`: it returns the range's lower bound, which
/// std leaves unspecified only once the range has been iterated to exhaustion.
pub assume_specification<Idx>[ RangeInclusive::<Idx>::start ](r: &RangeInclusive<Idx>) -> (ret: &Idx)
    ensures
        !r@.exhausted ==> *ret == r@.start,
;

/// Relies on `RangeInclusive::end`: it returns the range's upper bound, which
/// std leaves unspecified only once the range has been iterated to exhaustion.
pub assume_specification<Idx>[ RangeInclusive::<Idx>::end ](r: &RangeInclusive<Idx>) -> (ret: &Idx)
    ensures
        !r@.exhausted ==> *ret == r@.end,
;

/// `n` raised to at least `lo`, then lowered to at most `hi`.
pub open spec fn clamped(n: int, lo: int, hi: int) -> int {
    let raised = if n < lo { lo } else { n };
    if raised > hi { hi } else { raised }
}

/// Constrains `n` into the inclusive range `r`.
pub fn clamp(n: i128, r: RangeInclusive<i128>) -> (res: i128)
    requires
        !r@.exhausted,
    ensures
        res == clamped(n as int, r@.start as int, r@.end as int),
{
    let lo = *r.start();
    let hi = *r.end();
    let raised = if n < lo { lo } else { n };
    if raised > hi { hi } else { raised }
}

/// A position inside an array.
///
/// Positions counted from the back have a variant of their own, so that the
/// whole `usize` range can be named from either end without overflow.
#[derive(Debug, Clone, Copy, PartialEq, Eq, Structural)]
pub enum Index {
    /// Position relative to the start of the array: `Head(0)` is the first
    /// element of a non-empty array.
    Head(usize),
    /// Position relative to the end of the array: `Tail(1)` is the last
    /// element of a non-empty array. `Tail(0)` is one past the end: as a start
    /// it selects nothing ascending and the last element descending, where it
    /// is clamped like any other bound.
    Tail(usize),
    /// The first or the last element of the array, depending on the sign of
    /// the step.
    Default,
}

impl Index {
    /// The bound this index stands for in an array of length `len`, clamped
    /// into `[lo, hi]`; `None` for `Default`.
    pub open spec fn bound(self, len: int, lo: int, hi: int) -> Option<int> {
        match self {
            Index::Head(n) => Some(clamped(n as int, lo, hi)),
            Index::Tail(n) => Some(clamped(len - n, lo, hi)),
            Index::Default => None,
        }
    }

    /// Turns an index into an array bound clamped into `r`. A bound may be
    /// `-1`, the exclusive lower bound that lets a descending walk reach `0`.
    pub fn to_bound(&self, len: i128, r: RangeInclusive<i128>) -> (res: Option<i128>)
        requires
            0 <= len <= usize::MAX,
            !r@.exhausted,
        ensures
            res matches Some(b) ==> Some(b as int) == self.bound(len as int, r@.start as int, r@.end as int),
            res is None <==> self.bound(len as int, r@.start as int, r@.end as int) is None,
    {
        match *self {
            Index::Head(n) => Some(clamp(n as i128, r)),
            Index::Tail(n) => Some(clamp(len - n as i128, r)),
            Index::Default => None,
        }
    }
}

/// The index that a signed position names: a non-negative `i` counts from
/// the front, a negative one counts `-i` back from the end.
pub open spec fn signed_index(i: int) -> Index {
    if i < 0 {
        Index::Tail((-i) as usize)
    } else {
        Index::Head(i as usize)
    }
}

impl From<usize> for Index {
    fn from(i: usize) -> (r: Index)
        ensures
            r == Index::Head(i),
    {
        Index::Head(i)
    }
}

impl vstd::std_specs::convert::FromSpecImpl<usize> for Index {
    open spec fn obeys_from_spec() -> bool {
        true
    }

    open spec fn from_spec(i: usize) -> Index {
        Index::Head(i)
    }
}

impl From<isize> for Index {
    fn from(i: isize) -> (r: Index)
        ensures
            r == signed_index(i as int),
    {
        if i < 0 {
            Index::Tail((-(i as i128)) as usize)
        } else {
            Index::Head(i as usize)
        }
    }
}

impl vstd::std_specs::convert::FromSpecImpl<isize> for Index {
    open spec fn obeys_from_spec() -> bool {
        true
    }

    open spec fn from_spec(i: isize) -> Index {
        signed_index(i as int)
    }
}

impl From<i32> for Index {
    fn from(i: i32) -> (r: Index)
        ensures
            r == signed_index(i as int),
    {
        if i < 0 {
            Index::Tail((-(i as i64)) as usize)
        } else {
            Index::Head(i as usize)
        }
    }
}

impl vstd::std_specs::convert::FromSpecImpl<i32> for Index {
    open spec fn obeys_from_spec() -> bool {
        true
    }

    open spec fn from_spec(i: i32) -> Index {
        signed_index(i as int)
    }
}

impl From<Option<usize>> for Index {
    fn from(i: Option<usize>) -> (r: Index)
        ensures
            r == (match i {
                Some(u) => Index::Head(u),
                None => Index::Default,
            }),
    {
        match i {
            Some(u) => Index::from(u),
            None => Index::Default,
        }
    }
}

impl vstd::std_specs::convert::FromSpecImpl<Option<usize>> for Index {
    open spec fn obeys_from_spec() -> bool {
        true
    }

    open spec fn from_spec(i: Option<usize>) -> Index {
        match i {
            Some(u) => Index::Head(u),
            None => Index::Default,
        }
    }
}

impl From<Option<isize>> for Index {
    fn from(i: Option<isize>) -> (r: Index)
        ensures
            r == (match i {
                Some(u) => signed_index(u as int),
                None => Index::Default,
            }),
    {
        match i {
            Some(u) => Index::from(u),
            None => Index::Default,
        }
    }
}

impl vstd::std_specs::convert::FromSpecImpl<Option<isize>> for Index {
    open spec fn obeys_from_spec() -> bool {
        true
    }

    open spec fn from_spec(i: Option<isize>) -> Index {
        match i {
            Some(u) => signed_index(u as int),
            None => Index::Default,
        }
    }
}

impl From<Option<i32>> for Index {
    fn from(i: Option<i32>) -> (r: Index)
        ensures
            r == (match i {
                Some(u) => signed_index(u as int),
                None => Index::Default,
            }),
    {
        match i {
            Some(u) => Index::from(u),
            None => Index::Default,
        }
    }
}

impl vstd::std_specs::convert::FromSpecImpl<Option<i32>> for Index {
    open spec fn obeys_from_spec() -> bool {
        true
    }

    open spec fn from_spec(i: Option<i32>) -> Index {
        match i {
            Some(u) => signed_index(u as int),
            None => Index::Default,
        }
    }
}

impl Default for Index {
    fn default() -> (r: Index)
        ensures
            r == Index::Default,
    {
        Index::Default
    }
}

} // verus!
