//! Contiguous and fixed-step expansion of a range of frames.
use crate::subdivide::{ints, span};
use vstd::arithmetic::div_mod::{
    lemma_div_multiples_vanish, lemma_fundamental_div_mod, lemma_mod_multiples_basic,
};
use vstd::prelude::*;

verus! {

/// The frames of `left-right`: every integer from `left` to `right`,
/// ascending or descending as the bounds are.
pub open spec fn contiguous_frames(left: int, right: int) -> Seq<int> {
    if left <= right {
        span(left, right)
    } else {
        span(right, left).reverse()
    }
}

/// How many frames `left-right@step` holds.
pub open spec fn step_count(left: int, right: int, step: int) -> int {
    if left <= right {
        (right - left) / step + 1
    } else {
        (left - right) / step + 1
    }
}

/// The frames of `left-right@step`: `left`, then `step` further each time
/// towards `right`, as long as `right` is not passed.
pub open spec fn stepped_frames(left: int, right: int, step: int) -> Seq<int> {
    Seq::new(
        step_count(left, right, step) as nat,
        |k: int|
            if left <= right {
                left + k * step
            } else {
                left - k * step
            },
    )
}

/// The frames of `left-right`.
pub fn contiguous_range(left: isize, right: isize) -> (r: Vec<isize>)
    ensures
        ints(r@) == contiguous_frames(left as int, right as int),
{
    let mut r: Vec<isize> = Vec::new();
    let mut v: isize = left;
    if left <= right {
        loop
            invariant_except_break
                r@.len() == v - left,
            invariant
                left <= v <= right,
                forall|j: int| 0 <= j < r@.len() ==> #[trigger] r@[j] == left + j,
            ensures
                r@.len() == right - left + 1,
            decreases right - v,
        {
            r.push(v);
            if v == right {
                break;
            }
            v += 1;
        }
        assert(ints(r@) =~= span(left as int, right as int));
    } else {
        loop
            invariant_except_break
                r@.len() == left - v,
            invariant
                right <= v <= left,
                forall|j: int| 0 <= j < r@.len() ==> #[trigger] r@[j] == left - j,
            ensures
                r@.len() == left - right + 1,
            decreases v - right,
        {
            r.push(v);
            if v == right {
                break;
            }
            v -= 1;
        }
        let ghost up = span(right as int, left as int);
        assert forall|j: int| 0 <= j < r@.len() implies #[trigger] up.reverse()[j] == left - j by {
            assert(up.reverse()[j] == up[up.len() - 1 - j]);
        }
        assert(ints(r@) =~= up.reverse());
    }
    r
}

proof fn lemma_last_step(d: int, step: int, k: int)
    requires
        step > 0,
        0 <= d,
        k >= 1,
        (k - 1) * step <= d < k * step,
    ensures
        d / step == k - 1,
{
    assert(d / step == k - 1) by (nonlinear_arith)
        requires
            step > 0,
            0 <= d,
            (k - 1) * step <= d < k * step,
    ;
}

/// The frames of `left-right@step`.
pub fn stepped_range(left: isize, right: isize, step: isize) -> (r: Vec<isize>)
    requires
        step > 0,
    ensures
        ints(r@) == stepped_frames(left as int, right as int, step as int),
{
    let mut r: Vec<isize> = Vec::new();
    let ghost s = step as int;
    let mut v: i128 = left as i128;
    if left <= right {
        while v <= right as i128
            invariant
                s == step as int,
                s > 0,
                left <= right,
                left <= v <= right + s,
                v == left + r@.len() * s,
                forall|j: int| 0 <= j < r@.len() ==> #[trigger] r@[j] == left + j * s,
            decreases right + s - v,
        {
            r.push(v as isize);
            assert(r@.len() * s == (r@.len() - 1) * s + s) by (nonlinear_arith);
            v = v + step as i128;
        }
        assert(r@.len() >= 1);
        assert((r@.len() - 1) * s == r@.len() * s - s) by (nonlinear_arith);
        proof {
            lemma_last_step(right - left, s, r@.len() as int);
        }
    } else {
        assert(r@.len() * s == 0);
        while v >= right as i128
            invariant
                s == step as int,
                s > 0,
                right < left,
                right - s <= v <= left,
                v == left - r@.len() * s,
                forall|j: int| 0 <= j < r@.len() ==> #[trigger] r@[j] == left - j * s,
            decreases v - right + s,
        {
            r.push(v as isize);
            assert(r@.len() * s == (r@.len() - 1) * s + s) by (nonlinear_arith);
            v = v - step as i128;
        }
        assert(r@.len() >= 1);
        assert((r@.len() - 1) * s == r@.len() * s - s) by (nonlinear_arith);
        proof {
            lemma_last_step(left - right, s, r@.len() as int);
        }
    }
    assert(ints(r@) =~= stepped_frames(left as int, right as int, step as int));
    r
}

/// A stepped range stays on its grid and inside its bounds: every frame of
/// `left-right@step` is a whole number of steps away from `left` and lies
/// between `min(left, right)` and `max(left, right)`; `right` itself is among
/// the frames exactly when it is a whole number of steps away from `left`.
pub proof fn lemma_stepped_frames(left: int, right: int, step: int)
    requires
        step > 0,
    ensures
        forall|k: int|
            0 <= k < stepped_frames(left, right, step).len() ==> {
                let v = #[trigger] stepped_frames(left, right, step)[k];
                &&& (v - left) % step == 0
                &&& (if left <= right {
                    left <= v <= right
                } else {
                    right <= v <= left
                })
            },
        stepped_frames(left, right, step).contains(right) <==> (right - left) % step == 0,
{
    let f = stepped_frames(left, right, step);
    let d = if left <= right { right - left } else { left - right };
    lemma_fundamental_div_mod(d, step);
    assert(d / step >= 0) by (nonlinear_arith)
        requires
            d >= 0,
            step > 0,
    ;
    assert forall|k: int| 0 <= k < f.len() implies {
        let v = #[trigger] f[k];
        &&& (v - left) % step == 0
        &&& (if left <= right {
            left <= v <= right
        } else {
            right <= v <= left
        })
    } by {
        let q = d / step;
        assert(k * step <= q * step) by (nonlinear_arith)
            requires
                0 <= k <= q,
                step > 0,
        ;
        assert(q * step == step * q) by (nonlinear_arith);
        assert(k * step >= 0) by (nonlinear_arith)
            requires
                0 <= k,
                step > 0,
        ;
        if left <= right {
            lemma_mod_multiples_basic(k, step);
        } else {
            lemma_mod_multiples_basic(-k, step);
            assert(-k * step == -(k * step)) by (nonlinear_arith);
        }
    }
    if f.contains(right) {
        let k = choose|k: int| 0 <= k < f.len() && f[k] == right;
        if left <= right {
            lemma_mod_multiples_basic(k, step);
        } else {
            lemma_mod_multiples_basic(-k, step);
            assert(-k * step == -(k * step)) by (nonlinear_arith);
        }
    }
    if (right - left) % step == 0 {
        lemma_fundamental_div_mod(right - left, step);
        let q = if left <= right { (right - left) / step } else { -((right - left) / step) };
        let x = (right - left) / step;
        assert(step * (-x) == -(step * x)) by (nonlinear_arith);
        assert(d == step * q);
        lemma_div_multiples_vanish(q, step);
        assert(q * step == step * q) by (nonlinear_arith);
        assert(f[q] == right);
    }
}

} // verus!
