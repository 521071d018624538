//! Finite sums and products over a field, and the laws by which proofs rearrange them.

use crate::field;
use crate::field::Field;
use vstd::prelude::*;

verus! {

/// `f(0) + f(1) + ... + f(n - 1)`.
pub open spec fn sum<F: Field>(n: int, f: spec_fn(int) -> F) -> F
    decreases n,
{
    if n <= 0 {
        F::of_int(0)
    } else {
        sum(n - 1, f).plus(f(n - 1))
    }
}

/// `f(0) f(1) ... f(n - 1)`.
pub open spec fn product<F: Field>(n: int, f: spec_fn(int) -> F) -> F
    decreases n,
{
    if n <= 0 {
        F::of_int(1)
    } else {
        product(n - 1, f).times(f(n - 1))
    }
}

/// The inner product of two sequences, over the length of the first.
pub open spec fn dot<F: Field>(a: Seq<F>, b: Seq<F>) -> F {
    sum(a.len() as int, |i: int| a[i].times(b[i]))
}

/// A term that counts only if its flag is set.
pub open spec fn flagged<F: Field>(on: bool, g: F) -> F {
    if on {
        g
    } else {
        F::of_int(0)
    }
}

/// `x` to the power `n`.
pub open spec fn power<F: Field>(x: F, n: int) -> F
    decreases n,
{
    if n <= 0 {
        F::of_int(1)
    } else {
        power(x, n - 1).times(x)
    }
}

pub proof fn lemma_power_valid<F: Field>(x: F, n: int)
    ensures
        power(x, n).valid(),
{
    F::law_of_int_valid(1);
    if n > 0 {
        F::law_valid(power(x, n - 1), x);
        F::law_valid(x, power(x, n - 1));
    }
}

pub proof fn lemma_sum_valid<F: Field>(n: int, f: spec_fn(int) -> F)
    ensures
        sum(n, f).valid(),
{
    if n <= 0 {
        F::law_of_int_valid(0);
    } else {
        F::law_valid(sum(n - 1, f), f(n - 1));
    }
}

pub proof fn lemma_product_valid<F: Field>(n: int, f: spec_fn(int) -> F)
    ensures
        product(n, f).valid(),
{
    if n <= 0 {
        F::law_of_int_valid(1);
    } else {
        F::law_valid(product(n - 1, f), f(n - 1));
    }
}

/// Sums of pointwise equal terms are equal.
pub proof fn lemma_sum_ext<F: Field>(n: int, f: spec_fn(int) -> F, g: spec_fn(int) -> F)
    requires
        forall|i: int| 0 <= i < n ==> #[trigger] f(i) == g(i),
    ensures
        sum(n, f) == sum(n, g),
    decreases n,
{
    if n > 0 {
        lemma_sum_ext(n - 1, f, g);
        assert(f(n - 1) == g(n - 1));
    }
}

/// Products of pointwise equal factors are equal.
pub proof fn lemma_product_ext<F: Field>(n: int, f: spec_fn(int) -> F, g: spec_fn(int) -> F)
    requires
        forall|i: int| 0 <= i < n ==> #[trigger] f(i) == g(i),
    ensures
        product(n, f) == product(n, g),
    decreases n,
{
    if n > 0 {
        lemma_product_ext(n - 1, f, g);
        assert(f(n - 1) == g(n - 1));
    }
}

/// A sum of zeros is zero.
pub proof fn lemma_sum_zero<F: Field>(n: int, f: spec_fn(int) -> F)
    requires
        forall|i: int| 0 <= i < n ==> #[trigger] f(i) == F::of_int(0),
    ensures
        sum(n, f) == F::of_int(0),
    decreases n,
{
    if n > 0 {
        lemma_sum_zero(n - 1, f);
        assert(f(n - 1) == F::of_int(0));
        F::law_of_int_plus(0, 0);
    }
}

/// A sum of sums is the sum of the two sums.
pub proof fn lemma_sum_plus<F: Field>(n: int, f: spec_fn(int) -> F, g: spec_fn(int) -> F)
    ensures
        sum(n, |i: int| f(i).plus(g(i))) == sum(n, f).plus(sum(n, g)),
    decreases n,
{
    if n > 0 {
        lemma_sum_plus(n - 1, f, g);
        field::lemma_plus_exchange(sum(n - 1, f), sum(n - 1, g), f(n - 1), g(n - 1));
    } else {
        F::law_of_int_plus(0, 0);
    }
}

/// A sum of differences is the difference of the two sums.
pub proof fn lemma_sum_minus<F: Field>(n: int, f: spec_fn(int) -> F, g: spec_fn(int) -> F)
    ensures
        sum(n, |i: int| f(i).minus(g(i))) == sum(n, f).minus(sum(n, g)),
    decreases n,
{
    if n > 0 {
        lemma_sum_minus(n - 1, f, g);
        field::lemma_minus_exchange(sum(n - 1, f), sum(n - 1, g), f(n - 1), g(n - 1));
    } else {
        field::lemma_minus_self(F::of_int(0));
    }
}

/// A common factor can be pulled out of a sum.
pub proof fn lemma_sum_scale<F: Field>(n: int, c: F, f: spec_fn(int) -> F)
    ensures
        sum(n, |i: int| c.times(f(i))) == c.times(sum(n, f)),
    decreases n,
{
    if n > 0 {
        lemma_sum_scale(n - 1, c, f);
        F::law_distrib(c, sum(n - 1, f), f(n - 1));
    } else {
        F::law_times_zero(c);
    }
}

/// A common right factor can be pulled out of a sum.
pub proof fn lemma_sum_scale_right<F: Field>(n: int, f: spec_fn(int) -> F, c: F)
    ensures
        sum(n, |i: int| f(i).times(c)) == sum(n, f).times(c),
    decreases n,
{
    if n > 0 {
        lemma_sum_scale_right(n - 1, f, c);
        field::lemma_distrib_right(c, sum(n - 1, f), f(n - 1));
    } else {
        field::lemma_zero_times(c);
    }
}

/// A sum over `2 n` terms is the sum over its `n` consecutive pairs.
pub proof fn lemma_sum_pairs<F: Field>(n: int, f: spec_fn(int) -> F)
    requires
        n >= 0,
    ensures
        sum(2 * n, f) == sum(n, |j: int| f(2 * j).plus(f(2 * j + 1))),
    decreases n,
{
    if n > 0 {
        lemma_sum_pairs(n - 1, f);
        assert(sum(2 * n, f) == sum(2 * n - 1, f).plus(f(2 * n - 1)));
        assert(sum(2 * n - 1, f) == sum(2 * n - 2, f).plus(f(2 * n - 2)));
        F::law_plus_assoc(sum(2 * n - 2, f), f(2 * n - 2), f(2 * n - 1));
    }
}

/// A sum splits at any index.
pub proof fn lemma_sum_split<F: Field>(n: int, m: int, f: spec_fn(int) -> F)
    requires
        n >= 0,
        m >= 0,
    ensures
        sum(n + m, f) == sum(n, f).plus(sum(m, |i: int| f(n + i))),
    decreases m,
{
    if m > 0 {
        lemma_sum_split(n, m - 1, f);
        let g = |i: int| f(n + i);
        F::law_plus_assoc(sum(n, f), sum(m - 1, g), f(n + m - 1));
    } else {
        lemma_sum_valid(n, f);
        F::law_plus_zero(sum(n, f));
    }
}

/// The order of a double sum can be exchanged.
pub proof fn lemma_sum_swap<F: Field>(n: int, m: int, f: spec_fn(int, int) -> F)
    ensures
        sum(n, |i: int| sum(m, |j: int| f(i, j))) == sum(m, |j: int| sum(n, |i: int| f(i, j))),
    decreases n,
{
    let lhs = |i: int| sum(m, |j: int| f(i, j));
    let rhs = |j: int| sum(n, |i: int| f(i, j));
    if n > 0 {
        lemma_sum_swap(n - 1, m, f);
        let prev = |j: int| sum(n - 1, |i: int| f(i, j));
        let last = |j: int| f(n - 1, j);
        lemma_sum_plus(m, prev, last);
        lemma_sum_ext(m, rhs, |j: int| prev(j).plus(last(j)));
    } else {
        lemma_sum_zero(m, rhs);
    }
}

/// A sum over `k t` terms is the sum over `k` blocks of `t` terms.
pub proof fn lemma_sum_blocks<F: Field>(k: int, t: int, f: spec_fn(int) -> F)
    requires
        k >= 0,
        t >= 0,
    ensures
        sum(k * t, f) == sum(k, |a: int| sum(t, |j: int| f(a * t + j))),
    decreases k,
{
    if k > 0 {
        lemma_sum_blocks(k - 1, t, f);
        assert(k * t == (k - 1) * t + t) by (nonlinear_arith);
        assert((k - 1) * t >= 0) by (nonlinear_arith)
            requires
                k > 0,
                t >= 0,
        ;
        lemma_sum_split((k - 1) * t, t, f);
        lemma_sum_ext(t, |i: int| f((k - 1) * t + i), |j: int| f((k - 1) * t + j));
    } else {
        assert(k * t == 0) by (nonlinear_arith)
            requires
                k == 0,
        ;
    }
}

/// A sum with a single nonzero term is that term.
pub proof fn lemma_sum_single<F: Field>(n: int, k: int, f: spec_fn(int) -> F)
    requires
        0 <= k < n,
        f(k).valid(),
        forall|i: int| 0 <= i < n && i != k ==> #[trigger] f(i) == F::of_int(0),
    ensures
        sum(n, f) == f(k),
    decreases n,
{
    if k == n - 1 {
        lemma_sum_zero(n - 1, f);
        field::lemma_zero_plus(f(k));
    } else {
        lemma_sum_single(n - 1, k, f);
        assert(f(n - 1) == F::of_int(0));
        F::law_plus_zero(f(k));
    }
}

/// The inner product is symmetric.
pub proof fn lemma_dot_comm<F: Field>(a: Seq<F>, b: Seq<F>)
    requires
        a.len() == b.len(),
    ensures
        dot(a, b) == dot(b, a),
{
    let f = |i: int| a[i].times(b[i]);
    let g = |i: int| b[i].times(a[i]);
    assert forall|i: int| 0 <= i < a.len() implies #[trigger] f(i) == g(i) by {
        F::law_times_comm(a[i], b[i]);
    }
    lemma_sum_ext(a.len() as int, f, g);
}

/// The inner product of two slices of equal length.
pub fn inner_product<F: Field>(a: &[F], b: &[F]) -> (r: F)
    requires
        a@.len() == b@.len(),
    ensures
        r == dot(a@, b@),
{
    let mut acc: F = field::zero();
    let ghost f = |i: int| a@[i].times(b@[i]);
    let n: usize = a.len();
    for i in 0..n
        invariant
            n == a@.len(),
            a@.len() == b@.len(),
            f == (|i: int| a@[i].times(b@[i])),
            acc == sum(i as int, f),
    {
        acc = acc.add(a[i].mul(b[i]));
    }
    acc
}

} // verus!
