use vstd::arithmetic::div_mod::{
    lemma_basic_div, lemma_div_plus_one, lemma_div_pos_is_pos, lemma_fundamental_div_mod,
    lemma_mod_pos_bound,
};
use vstd::prelude::*;

verus! {

/// How many of `i`, `i + step`, `i + 2 * step`, ... lie strictly before
/// `end` in the direction of `step`: `ceil((end - i) / step)` when positive,
/// and none for a zero step.
pub open spec fn stride_count(i: int, end: int, step: int) -> nat {
    if step > 0 && i < end {
        ((end - i + step - 1) / step) as nat
    } else if step < 0 && i > end {
        ((i - end - step - 1) / (-step)) as nat
    } else {
        0
    }
}

/// The positions `i`, `i + step`, ... that lie strictly before `end` in the
/// direction of `step`.
pub open spec fn stride(i: int, end: int, step: int) -> Seq<int> {
    Seq::new(stride_count(i, end, step), |k: int| i + k * step)
}

/// A walk yields something exactly when its start lies before its end in
/// the direction of a non-zero step.
pub proof fn lemma_stride_nonempty(i: int, end: int, step: int)
    ensures
        stride_count(i, end, step) > 0 <==> (step > 0 && i < end) || (step < 0 && i > end),
{
    if (step > 0 && i < end) || (step < 0 && i > end) {
        let d = if step > 0 { step } else { -step };
        let gap = if step > 0 { end - i - 1 } else { i - end - 1 };
        lemma_div_plus_one(gap, d);
        lemma_div_pos_is_pos(gap, d);
    }
}

/// Every position of a walk lies between its start (inclusive) and its end
/// (exclusive).
pub proof fn lemma_stride_between(i: int, end: int, step: int)
    ensures
        forall|k: int|
            0 <= k < stride_count(i, end, step) ==> {
                &&& step > 0 ==> i <= #[trigger] stride(i, end, step)[k] < end
                &&& step < 0 ==> end < stride(i, end, step)[k] <= i
            },
{
    assert forall|k: int| 0 <= k < stride_count(i, end, step) implies {
        &&& step > 0 ==> i <= #[trigger] stride(i, end, step)[k] < end
        &&& step < 0 ==> end < stride(i, end, step)[k] <= i
    } by {
        let d = if step > 0 { step } else { -step };
        let gap = if step > 0 { end - i - 1 } else { i - end - 1 };
        let q = (gap + d) / d;
        lemma_fundamental_div_mod(gap + d, d);
        lemma_mod_pos_bound(gap + d, d);
        assert(q == stride_count(i, end, step));
        assert(k * d <= gap) by (nonlinear_arith)
            requires
                0 <= k < q,
                d > 0,
                gap + d == d * q + (gap + d) % d,
                0 <= (gap + d) % d < d,
        {
            assert(k * d <= (q - 1) * d);
        }
        assert(0 <= k * d) by (nonlinear_arith) requires k >= 0, d > 0;
        assert(k * step == if step > 0 { k * d } else { -(k * d) }) by (nonlinear_arith)
            requires d == if step > 0 { step } else { -step };
    }
}

/// One step of a walk: what is left after the first position is what the
/// walk from the next position yields.
pub proof fn lemma_stride_advance(i: int, end: int, step: int)
    requires
        stride_count(i, end, step) > 0,
    ensures
        stride(i, end, step)[0] == i,
        stride(i + step, end, step) == stride(i, end, step).drop_first(),
{
    let c = stride_count(i, end, step);
    let d = if step > 0 { step } else { -step };
    let gap = if step > 0 { end - i - 1 } else { i - end - 1 };
    assert(0 <= gap);
    lemma_div_plus_one(gap, d);
    assert(c == 1 + gap / d);
    if gap < d {
        lemma_basic_div(gap, d);
        assert(stride_count(i + step, end, step) == 0);
    } else {
        lemma_div_plus_one(gap - d, d);
    }
    assert(stride_count(i + step, end, step) == c - 1);
    assert forall|k: int| 0 <= k < c - 1 implies (i + step) + #[trigger] (k * step) == i + (k + 1) * step by {
        assert((k + 1) * step == k * step + step) by (nonlinear_arith);
    }
    assert(stride(i + step, end, step) =~= stride(i, end, step).drop_first());
}

/// A walk over array positions from a start towards an exclusive end, by a
/// signed step. A zero step yields nothing.
pub struct Iter {
    i: i128,
    end: i128,
    step: i128,
}

impl Iter {
    /// The positions that are still to come.
    pub closed spec fn view(&self) -> Seq<int> {
        stride(self.i as int, self.end as int, self.step as int)
    }

    /// The walk's bounds keep every position it yields a valid `usize`, and
    /// leave room to advance without overflow.
    pub closed spec fn wf(&self) -> bool {
        &&& isize::MIN <= self.step <= isize::MAX
        &&& -1 <= self.end <= usize::MAX
        &&& -(usize::MAX as int) - 2 - isize::MAX <= self.i <= usize::MAX as int + isize::MAX + 1
        &&& self.step > 0 ==> self.i >= 0
        &&& self.step < 0 ==> self.i <= usize::MAX
    }

    /// A walk from `i` towards `end` by `step`.
    pub fn new(i: i128, end: i128, step: isize) -> (r: Iter)
        requires
            -1 <= i <= usize::MAX,
            -1 <= end <= usize::MAX,
            step > 0 ==> i >= 0,
        ensures
            r.wf(),
            r@ == stride(i as int, end as int, step as int),
    {
        Iter { i, end, step: step as i128 }
    }

    /// Yields the next position, if any.
    pub fn next(&mut self) -> (r: Option<usize>)
        requires
            old(self).wf(),
        ensures
            final(self).wf(),
            old(self)@.len() == 0 ==> r is None && final(self)@ == old(self)@,
            old(self)@.len() > 0 ==> r == Some(old(self)@[0] as usize) && final(self)@ == old(self)@.drop_first(),
    {
        let in_range = if self.step > 0 {
            self.i < self.end
        } else if self.step < 0 {
            self.i > self.end
        } else {
            false
        };
        proof {
            lemma_stride_nonempty(self.i as int, self.end as int, self.step as int);
        }
        if !in_range {
            return None;
        }
        proof {
            lemma_stride_advance(self.i as int, self.end as int, self.step as int);
        }
        let i = self.i;
        self.i = self.i + self.step;
        Some(i as usize)
    }
}

} // verus!
