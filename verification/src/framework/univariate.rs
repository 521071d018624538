//! Univariate polynomials in coefficient form, lowest degree first.

use crate::field;
use crate::field::Field;
use crate::framework::sums;
use vstd::prelude::*;

verus! {

/// The value at `x` of the polynomial with coefficients `p`.
pub open spec fn eval<F: Field>(p: Seq<F>, x: F) -> F
    decreases p.len(),
{
    if p.len() == 0 {
        F::of_int(0)
    } else {
        p[0].plus(x.times(eval(p.skip(1), x)))
    }
}

/// The coefficient of degree `i`, zero beyond the leading one.
pub open spec fn coefficient<F: Field>(p: Seq<F>, i: int) -> F {
    if 0 <= i < p.len() {
        p[i]
    } else {
        F::of_int(0)
    }
}

/// The larger of two lengths.
pub open spec fn longer(a: nat, b: nat) -> nat {
    if a >= b {
        a
    } else {
        b
    }
}

/// The sum of two polynomials.
pub open spec fn poly_plus<F: Field>(p: Seq<F>, q: Seq<F>) -> Seq<F> {
    Seq::new(longer(p.len(), q.len()), |i: int| coefficient(p, i).plus(coefficient(q, i)))
}

/// The difference of two polynomials.
pub open spec fn poly_minus<F: Field>(p: Seq<F>, q: Seq<F>) -> Seq<F> {
    Seq::new(longer(p.len(), q.len()), |i: int| coefficient(p, i).minus(coefficient(q, i)))
}

/// A polynomial times a constant.
pub open spec fn poly_scale<F: Field>(c: F, p: Seq<F>) -> Seq<F> {
    Seq::new(p.len(), |i: int| c.times(p[i]))
}

/// A polynomial times the variable.
pub open spec fn poly_shift<F: Field>(p: Seq<F>) -> Seq<F> {
    seq![F::of_int(0)] + p
}

/// The product of two polynomials.
pub open spec fn poly_times<F: Field>(p: Seq<F>, q: Seq<F>) -> Seq<F>
    decreases p.len(),
{
    if p.len() == 0 {
        Seq::empty()
    } else {
        poly_plus(poly_scale(p[0], q), poly_shift(poly_times(p.skip(1), q)))
    }
}

/// The sum of the polynomials `f(0), ..., f(n - 1)`.
pub open spec fn poly_sum<F: Field>(n: int, f: spec_fn(int) -> Seq<F>) -> Seq<F>
    decreases n,
{
    if n <= 0 {
        Seq::empty()
    } else {
        poly_plus(poly_sum(n - 1, f), f(n - 1))
    }
}

/// The value of a polynomial is canonical.
pub proof fn lemma_eval_valid<F: Field>(p: Seq<F>, x: F)
    ensures
        eval(p, x).valid(),
{
    if p.len() == 0 {
        F::law_of_int_valid(0);
    } else {
        F::law_valid(p[0], x.times(eval(p.skip(1), x)));
    }
}

/// A change of a coefficient changes the value at one by as much, and the value at zero only if the
/// coefficient is the constant one.
pub proof fn lemma_eval_changed<F: Field>(p: Seq<F>, i: int, delta: F)
    requires
        0 <= i < p.len(),
        delta.valid(),
    ensures
        ({
            let q = p.update(i, p[i].plus(delta));
            let (zero, one) = (F::of_int(0), F::of_int(1));
            &&& eval(q, one) == eval(p, one).plus(delta)
            &&& eval(q, zero) == if i == 0 {
                eval(p, zero).plus(delta)
            } else {
                eval(p, zero)
            }
        }),
    decreases p.len(),
{
    let q = p.update(i, p[i].plus(delta));
    let (zero, one) = (F::of_int(0), F::of_int(1));
    let rest = eval(p.skip(1), one);
    lemma_eval_valid(p.skip(1), one);
    field::lemma_one_times(rest);
    field::lemma_zero_times(eval(p.skip(1), zero));
    field::lemma_zero_times(eval(q.skip(1), zero));
    if i == 0 {
        assert(q.skip(1) =~= p.skip(1));
        F::law_plus_assoc(p[0], delta, rest);
        F::law_plus_comm(delta, rest);
        F::law_plus_assoc(p[0], rest, delta);
        F::law_plus_assoc(p[0], delta, zero);
        F::law_plus_comm(delta, zero);
        F::law_plus_assoc(p[0], zero, delta);
    } else {
        assert(q.skip(1) =~= p.skip(1).update(i - 1, p.skip(1)[i - 1].plus(delta)));
        lemma_eval_changed(p.skip(1), i - 1, delta);
        F::law_valid(rest, delta);
        field::lemma_one_times(rest.plus(delta));
        F::law_plus_assoc(p[0], rest, delta);
    }
}

/// Evaluation of a sum is the sum of the evaluations.
pub proof fn lemma_eval_plus<F: Field>(p: Seq<F>, q: Seq<F>, x: F)
    ensures
        eval(poly_plus(p, q), x) == eval(p, x).plus(eval(q, x)),
    decreases p.len() + q.len(),
{
    let s = poly_plus(p, q);
    let p1 = p.skip(1);
    let q1 = q.skip(1);
    if p.len() == 0 && q.len() == 0 {
        F::law_of_int_plus(0, 0);
    } else {
        let pt = if p.len() == 0 {
            p
        } else {
            p1
        };
        let qt = if q.len() == 0 {
            q
        } else {
            q1
        };
        assert(s.skip(1) =~= poly_plus(pt, qt));
        lemma_eval_plus(pt, qt, x);
        let a = coefficient(p, 0);
        let b = coefficient(q, 0);
        let ep = eval(pt, x);
        let eq = eval(qt, x);
        F::law_distrib(x, ep, eq);
        field::lemma_plus_exchange(a, b, x.times(ep), x.times(eq));
        F::law_times_zero(x);
        F::law_of_int_plus(0, 0);
    }
}

/// Evaluation of a scaled polynomial is the scaled evaluation.
pub proof fn lemma_eval_scale<F: Field>(c: F, p: Seq<F>, x: F)
    ensures
        eval(poly_scale(c, p), x) == c.times(eval(p, x)),
    decreases p.len(),
{
    if p.len() == 0 {
        F::law_times_zero(c);
    } else {
        assert(poly_scale(c, p).skip(1) =~= poly_scale(c, p.skip(1)));
        lemma_eval_scale(c, p.skip(1), x);
        let e = eval(p.skip(1), x);
        field::lemma_times_swap(x, c, e);
        F::law_distrib(c, p[0], x.times(e));
    }
}

/// Evaluation of a difference is the difference of the evaluations.
pub proof fn lemma_eval_minus<F: Field>(p: Seq<F>, q: Seq<F>, x: F)
    ensures
        eval(poly_minus(p, q), x) == eval(p, x).minus(eval(q, x)),
{
    let m = F::of_int(-1);
    let nq = poly_scale(m, q);
    assert(poly_minus(p, q) =~= poly_plus(p, nq)) by {
        assert forall|i: int| 0 <= i < longer(p.len(), q.len()) implies poly_minus(p, q)[i]
            == poly_plus(p, nq)[i] by {
            F::law_minus(coefficient(p, i), coefficient(q, i));
            F::law_times_comm(coefficient(q, i), m);
            F::law_times_zero(m);
            F::law_times_comm(F::of_int(0), m);
        }
    }
    lemma_eval_plus(p, nq, x);
    lemma_eval_scale(m, q, x);
    F::law_minus(eval(p, x), eval(q, x));
    F::law_times_comm(eval(q, x), m);
}

/// Evaluation of a shifted polynomial multiplies by the point.
pub proof fn lemma_eval_shift<F: Field>(p: Seq<F>, x: F)
    ensures
        eval(poly_shift(p), x) == x.times(eval(p, x)),
{
    assert(poly_shift(p).skip(1) =~= p);
    F::law_valid(x, eval(p, x));
    field::lemma_zero_plus(x.times(eval(p, x)));
}

/// Evaluation of a product is the product of the evaluations.
pub proof fn lemma_eval_times<F: Field>(p: Seq<F>, q: Seq<F>, x: F)
    ensures
        eval(poly_times(p, q), x) == eval(p, x).times(eval(q, x)),
    decreases p.len(),
{
    if p.len() == 0 {
        field::lemma_zero_times(eval(q, x));
    } else {
        let t = poly_times(p.skip(1), q);
        let e = eval(p.skip(1), x);
        let g = eval(q, x);
        lemma_eval_times(p.skip(1), q, x);
        lemma_eval_scale(p[0], q, x);
        lemma_eval_shift(t, x);
        lemma_eval_plus(poly_scale(p[0], q), poly_shift(t), x);
        F::law_times_assoc(x, e, g);
        field::lemma_distrib_right(g, p[0], x.times(e));
    }
}

/// Evaluation of a finite sum is the sum of the evaluations.
pub proof fn lemma_eval_sum<F: Field>(n: int, f: spec_fn(int) -> Seq<F>, x: F)
    ensures
        eval(poly_sum(n, f), x) == sums::sum(n, |j: int| eval(f(j), x)),
    decreases n,
{
    if n > 0 {
        lemma_eval_sum(n - 1, f, x);
        lemma_eval_plus(poly_sum(n - 1, f), f(n - 1), x);
    }
}

/// The line `a + x d` evaluates to what its coefficients say.
pub proof fn lemma_eval_line<F: Field>(a: F, d: F, x: F)
    requires
        d.valid(),
    ensures
        eval(seq![a, d], x) == a.plus(x.times(d)),
{
    let p = seq![a, d];
    assert(p.skip(1) =~= seq![d]);
    assert(p.skip(1).skip(1) =~= Seq::<F>::empty());
    F::law_times_zero(x);
    F::law_plus_zero(d);
    assert(eval(p.skip(1), x) == d.plus(x.times(eval(p.skip(1).skip(1), x))));
}

/// A constant polynomial evaluates to its constant.
pub proof fn lemma_eval_constant<F: Field>(c: F, x: F)
    requires
        c.valid(),
    ensures
        eval(seq![c], x) == c,
{
    assert(seq![c].skip(1) =~= Seq::<F>::empty());
    assert(eval(seq![c].skip(1), x) == F::of_int(0));
    F::law_times_zero(x);
    F::law_plus_zero(c);
}

/// The length of a product of nonempty polynomials.
pub proof fn lemma_times_len<F: Field>(p: Seq<F>, q: Seq<F>)
    requires
        p.len() > 0,
        q.len() > 0,
    ensures
        poly_times(p, q).len() == p.len() + q.len() - 1,
    decreases p.len(),
{
    if p.len() > 1 {
        lemma_times_len(p.skip(1), q);
    } else {
        assert(poly_times(p.skip(1), q) =~= Seq::<F>::empty());
    }
}

/// The length of a nonempty sum of polynomials of one length.
pub proof fn lemma_sum_len<F: Field>(n: int, f: spec_fn(int) -> Seq<F>, len: nat)
    requires
        n > 0,
        forall|j: int| 0 <= j < n ==> (#[trigger] f(j)).len() == len,
    ensures
        poly_sum(n, f).len() == len,
    decreases n,
{
    assert(f(n - 1).len() == len);
    if n > 1 {
        lemma_sum_len(n - 1, f, len);
    } else {
        assert(poly_sum(n - 1, f) =~= Seq::<F>::empty());
    }
}

/// The quadratic polynomial with the values `at_zero` at zero and `at_two` at two whose values at
/// zero and one add up to `claim`.
pub open spec fn hinted<F: Field>(claim: F, at_zero: F, at_two: F) -> Seq<F> {
    let at_one = claim.minus(at_zero);
    let rise = at_one.minus(at_zero);
    let lead = at_two.minus(at_one).minus(rise).times(F::half());
    seq![at_zero, rise.minus(lead), lead]
}

/// A quadratic polynomial is determined by its values at zero, one and two.
pub proof fn law_hinted<F: Field>(q: Seq<F>)
    requires
        q.len() == 3,
        field::all_valid(q),
    ensures
        hinted(
            eval(q, F::of_int(0)).plus(eval(q, F::of_int(1))),
            eval(q, F::of_int(0)),
            eval(q, F::of_int(2)),
        ) == q,
{
    let (a, b, c) = (q[0], q[1], q[2]);
    lemma_eval_quadratic(q, F::of_int(0));
    lemma_eval_quadratic(q, F::of_int(1));
    lemma_eval_quadratic(q, F::of_int(2));
    let two = F::of_int(2);
    let e0 = eval(q, F::of_int(0));
    let e1 = eval(q, F::of_int(1));
    let e2 = eval(q, two);
    let s = b.plus(c);
    let cc = c.plus(c);
    let y = b.plus(cc);
    // at zero
    field::lemma_zero_times(b.plus(F::of_int(0).times(c)));
    F::law_plus_zero(a);
    assert(e0 == a);
    // at one
    field::lemma_one_times(c);
    F::law_valid(b, c);
    field::lemma_one_times(s);
    assert(e1 == a.plus(s));
    // at two
    F::law_of_int_plus(1, 1);
    field::lemma_distrib_right(c, F::of_int(1), F::of_int(1));
    F::law_valid(b, cc);
    field::lemma_distrib_right(y, F::of_int(1), F::of_int(1));
    field::lemma_one_times(y);
    assert(e2 == a.plus(y.plus(y)));
    F::law_plus_assoc(b, c, c);
    field::lemma_plus_exchange(s, c, s, c);
    F::law_plus_assoc(s, s, cc);
    F::law_plus_assoc(a, s, s.plus(cc));
    assert(e2 == e1.plus(s.plus(cc)));
    // the coefficients
    F::law_valid(a, s);
    field::lemma_plus_minus(e0, e1);
    field::lemma_plus_minus(a, s);
    F::law_valid(s, cc);
    field::lemma_plus_minus(e1, s.plus(cc));
    F::law_valid(c, c);
    field::lemma_plus_minus(s, cc);
    field::lemma_distrib_right(F::half(), c, c);
    F::law_distrib(c, F::half(), F::half());
    F::law_half();
    F::law_times_one(c);
    assert(cc.times(F::half()) == c);
    F::law_plus_comm(b, c);
    field::lemma_plus_minus(c, b);
    assert(hinted(e0.plus(e1), e0, e2) =~= q);
}

/// A quadratic polynomial evaluates to what its coefficients say.
proof fn lemma_eval_quadratic<F: Field>(q: Seq<F>, x: F)
    requires
        q.len() == 3,
        field::all_valid(q),
    ensures
        eval(q, x) == q[0].plus(x.times(q[1].plus(x.times(q[2])))),
{
    assert(q.skip(1) =~= seq![q[1], q[2]]);
    lemma_eval_line(q[1], q[2], x);
}

/// A univariate polynomial in coefficient form.
#[derive(Debug)]
pub struct UnivariatePoly<F> {
    pub coefficients: Vec<F>,
}

impl<F: Field> View for UnivariatePoly<F> {
    type V = Seq<F>;

    open spec fn view(&self) -> Seq<F> {
        self.coefficients@
    }
}

impl<F: Field> UnivariatePoly<F> {
    /// The polynomial with the given coefficients, lowest degree first.
    pub fn new(coefficients: Vec<F>) -> (r: Self)
        ensures
            r@ == coefficients@,
    {
        UnivariatePoly { coefficients }
    }

    /// The quadratic polynomial through the values at zero and two whose values at zero and one add
    /// up to a claim.
    pub fn from_evals_and_hint(claim: F, at_zero: F, at_two: F) -> (r: Self)
        ensures
            r@ == hinted(claim, at_zero, at_two),
    {
        let at_one: F = claim.sub(at_zero);
        let rise: F = at_one.sub(at_zero);
        let lead: F = at_two.sub(at_one).sub(rise).mul(F::one_half());
        let coefficients: Vec<F> = vec![at_zero, rise.sub(lead), lead];
        assert(coefficients@ =~= hinted(claim, at_zero, at_two));
        UnivariatePoly { coefficients }
    }

    /// The value at `x`.
    pub fn evaluate(&self, x: F) -> (r: F)
        ensures
            r == eval(self@, x),
    {
        let mut acc: F = field::zero();
        let mut i: usize = self.coefficients.len();
        proof {
            assert(self@.skip(self@.len() as int) =~= Seq::<F>::empty());
        }
        while i > 0
            invariant
                i <= self.coefficients@.len(),
                acc == eval(self@.skip(i as int), x),
            decreases i,
        {
            i = i - 1;
            proof {
                let s = self@.skip(i as int);
                assert(s[0] == self@[i as int]);
                assert(s.skip(1) =~= self@.skip(i + 1));
            }
            acc = self.coefficients[i].add(x.mul(acc));
        }
        proof {
            assert(self@.skip(0) =~= self@);
        }
        acc
    }

    fn coefficient_or_zero(&self, i: usize) -> (r: F)
        ensures
            r == coefficient(self@, i as int),
    {
        if i < self.coefficients.len() {
            self.coefficients[i]
        } else {
            field::zero()
        }
    }

    fn longer_len(&self, other: &Self) -> (r: usize)
        ensures
            r == longer(self@.len(), other@.len()),
    {
        if self.coefficients.len() >= other.coefficients.len() {
            self.coefficients.len()
        } else {
            other.coefficients.len()
        }
    }

    /// The sum of two polynomials.
    pub fn plus(&self, other: &Self) -> (r: Self)
        ensures
            r@ == poly_plus(self@, other@),
    {
        let n: usize = self.longer_len(other);
        let mut out: Vec<F> = Vec::new();
        for i in 0..n
            invariant
                n == longer(self@.len(), other@.len()),
                out@ == poly_plus(self@, other@).take(i as int),
        {
            out.push(self.coefficient_or_zero(i).add(other.coefficient_or_zero(i)));
            assert(out@ =~= poly_plus(self@, other@).take(i + 1));
        }
        assert(out@ =~= poly_plus(self@, other@));
        UnivariatePoly { coefficients: out }
    }

    /// The difference of two polynomials.
    pub fn minus(&self, other: &Self) -> (r: Self)
        ensures
            r@ == poly_minus(self@, other@),
    {
        let n: usize = self.longer_len(other);
        let mut out: Vec<F> = Vec::new();
        for i in 0..n
            invariant
                n == longer(self@.len(), other@.len()),
                out@ == poly_minus(self@, other@).take(i as int),
        {
            out.push(self.coefficient_or_zero(i).sub(other.coefficient_or_zero(i)));
            assert(out@ =~= poly_minus(self@, other@).take(i + 1));
        }
        assert(out@ =~= poly_minus(self@, other@));
        UnivariatePoly { coefficients: out }
    }

    fn scale(&self, c: F) -> (r: Self)
        ensures
            r@ == poly_scale(c, self@),
    {
        let n: usize = self.coefficients.len();
        let mut out: Vec<F> = Vec::new();
        for i in 0..n
            invariant
                n == self@.len(),
                out@ == poly_scale(c, self@).take(i as int),
        {
            out.push(c.mul(self.coefficients[i]));
            assert(out@ =~= poly_scale(c, self@).take(i + 1));
        }
        assert(out@ =~= poly_scale(c, self@));
        UnivariatePoly { coefficients: out }
    }

    fn shift(&self) -> (r: Self)
        ensures
            r@ == poly_shift(self@),
    {
        let n: usize = self.coefficients.len();
        let mut out: Vec<F> = Vec::new();
        out.push(field::zero());
        for i in 0..n
            invariant
                n == self@.len(),
                out@ == poly_shift(self@).take(i + 1),
        {
            out.push(self.coefficients[i]);
            assert(out@ =~= poly_shift(self@).take(i + 2));
        }
        assert(out@ =~= poly_shift(self@));
        UnivariatePoly { coefficients: out }
    }

    /// The product of two polynomials.
    pub fn times(&self, other: &Self) -> (r: Self)
        ensures
            r@ == poly_times(self@, other@),
    {
        let mut acc: UnivariatePoly<F> = UnivariatePoly { coefficients: Vec::new() };
        let mut i: usize = self.coefficients.len();
        proof {
            assert(self@.skip(self@.len() as int) =~= Seq::<F>::empty());
            assert(acc@ =~= Seq::<F>::empty());
        }
        while i > 0
            invariant
                i <= self.coefficients@.len(),
                acc@ == poly_times(self@.skip(i as int), other@),
            decreases i,
        {
            i = i - 1;
            proof {
                let s = self@.skip(i as int);
                assert(s[0] == self@[i as int]);
                assert(s.skip(1) =~= self@.skip(i + 1));
            }
            acc = other.scale(self.coefficients[i]).plus(&acc.shift());
        }
        proof {
            assert(self@.skip(0) =~= self@);
        }
        acc
    }
}

/// All coefficients from position `k` on are zero.
pub open spec fn vanishes<F: Field>(p: Seq<F>, k: int) -> bool {
    forall|j: int| j >= k ==> #[trigger] coefficient(p, j) == F::of_int(0)
}

proof fn lemma_plus_vanishes<F: Field>(p: Seq<F>, q: Seq<F>, k: int)
    requires
        vanishes(p, k),
        vanishes(q, k),
    ensures
        vanishes(poly_plus(p, q), k),
{
    F::law_of_int_plus(0, 0);
    assert forall|j: int| j >= k implies #[trigger] coefficient(poly_plus(p, q), j) == F::of_int(
        0,
    ) by {
        assert(coefficient(p, j) == F::of_int(0));
        assert(coefficient(q, j) == F::of_int(0));
    }
}

/// The degrees of the factors bound the degree of a product.
pub proof fn lemma_times_vanishes<F: Field>(p: Seq<F>, q: Seq<F>, a: int, b: int)
    requires
        a >= 0,
        b >= 1,
        vanishes(p, a),
        vanishes(q, b),
    ensures
        vanishes(
            poly_times(p, q),
            if a == 0 {
                0
            } else {
                a + b - 1
            },
        ),
    decreases p.len(),
{
    if p.len() > 0 {
        let rest = p.skip(1);
        let high = poly_times(rest, q);
        let (a1, k) = if a == 0 {
            (0int, 0int)
        } else {
            (a - 1, a + b - 1)
        };
        assert forall|j: int| j >= a1 implies #[trigger] coefficient(rest, j) == F::of_int(0) by {
            assert(coefficient(p, j + 1) == F::of_int(0));
        }
        lemma_times_vanishes(rest, q, a1, b);
        let low = poly_scale(p[0], q);
        assert forall|j: int| j >= k implies #[trigger] coefficient(low, j) == F::of_int(0) by {
            if a == 0 {
                assert(coefficient(p, 0) == F::of_int(0));
                field::lemma_zero_times(coefficient(q, j));
            } else {
                assert(coefficient(q, j) == F::of_int(0));
                F::law_times_zero(p[0]);
            }
        }
        let shifted = poly_shift(high);
        assert forall|j: int| j >= k implies #[trigger] coefficient(shifted, j) == F::of_int(0) by {
            if j > 0 {
                assert(coefficient(high, j - 1) == F::of_int(0));
            }
        }
        lemma_plus_vanishes(low, shifted, k);
    }
}

/// The degrees of the terms bound the degree of a sum.
pub proof fn lemma_sum_vanishes<F: Field>(n: int, f: spec_fn(int) -> Seq<F>, k: int)
    requires
        forall|j: int| 0 <= j < n ==> vanishes(#[trigger] f(j), k),
    ensures
        vanishes(poly_sum(n, f), k),
    decreases n,
{
    if n > 0 {
        lemma_sum_vanishes(n - 1, f, k);
        lemma_plus_vanishes(poly_sum(n - 1, f), f(n - 1), k);
    }
}

} // verus!
