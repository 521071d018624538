//! Sums of products of two columns, folded from the most significant variable downwards.

use crate::field;
use crate::field::Field;
use crate::framework::poly;
use crate::framework::sums;
use crate::framework::univariate;
use crate::framework::univariate::UnivariatePoly;
use vstd::arithmetic::power2::pow2;
use vstd::prelude::*;

verus! {

/// The value at `x` of the line through `lo` at zero and `hi` at one.
pub open spec fn line<F: Field>(lo: F, hi: F, x: F) -> F {
    lo.plus(x.times(hi.minus(lo)))
}

/// The column after its most significant variable is set to `x`.
pub open spec fn bind_high<F: Field>(p: Seq<F>, x: F) -> Seq<F> {
    Seq::new(p.len() / 2, |i: int| line(p[i], p[i + p.len() / 2], x))
}

/// The column after its leading variables are set to `xs`, the most significant first.
pub open spec fn bind_high_all<F: Field>(p: Seq<F>, xs: Seq<F>) -> Seq<F>
    decreases xs.len(),
{
    if xs.len() == 0 {
        p
    } else {
        bind_high_all(bind_high(p, xs[0]), xs.skip(1))
    }
}

/// Setting the first variable first does not change the multilinear extension.
pub proof fn lemma_mle_fold<F: Field>(p: Seq<F>, r: Seq<F>)
    requires
        r.len() > 0,
        p.len() == pow2(r.len()),
    ensures
        poly::mle(p, r) == poly::mle(bind_high(p, r[0]), r.skip(1)),
{
    let rest = r.skip(1);
    let half = pow2(rest.len()) as int;
    let x = r[0];
    let q = bind_high(p, x);
    poly::lemma_pow2_step(r.len());
    let f = |i: int| p[i].times(poly::eq_weight(r, i));
    let shifted = |i: int| f(half + i);
    let both = |i: int| f(i).plus(shifted(i));
    let g = |i: int| q[i].times(poly::eq_weight(rest, i));
    sums::lemma_sum_split(half, half, f);
    sums::lemma_sum_ext(half, |i: int| f(half + i), shifted);
    sums::lemma_sum_plus(half, f, shifted);
    let first = seq![x];
    assert(r =~= first + rest);
    assert forall|i: int| 0 <= i < half implies #[trigger] both(i) == g(i) by {
        let w = poly::eq_weight(rest, i);
        poly::lemma_eq_weight_valid(rest, i);
        poly::lemma_eq_weight_concat(first, rest, 0, i);
        poly::lemma_eq_weight_concat(first, rest, 1, i);
        assert(0 * pow2(rest.len()) + i == i);
        assert(1 * pow2(rest.len()) + i == half + i);
        let empty = first.drop_last();
        assert(poly::eq_weight(empty, 0) == F::of_int(1));
        F::law_valid(F::of_int(1), x);
        assert(poly::eq_weight(first, 0) == F::of_int(1).times(poly::complement(x)));
        assert(poly::eq_weight(first, 1) == F::of_int(1).times(x));
        field::lemma_one_times(w);
        F::law_times_assoc(F::of_int(1), poly::complement(x), w);
        F::law_times_assoc(F::of_int(1), x, w);
        F::law_valid(poly::complement(x), w);
        F::law_valid(x, w);
        field::lemma_one_times(poly::complement(x).times(w));
        field::lemma_one_times(x.times(w));
        F::law_times_comm(poly::complement(x), w);
        F::law_times_comm(x, w);
        poly::lemma_bind_term(p[i], p[half + i], w, x);
    }
    sums::lemma_sum_ext(half, both, g);
    sums::lemma_sum_ext(half, both, |i: int| f(i).plus(shifted(i)));
}

pub proof fn lemma_fold_valid<F: Field>(p: Seq<F>, x: F)
    ensures
        field::all_valid(bind_high(p, x)),
{
    assert forall|i: int| 0 <= i < bind_high(p, x).len() implies (#[trigger] bind_high(
        p,
        x,
    )[i]).valid() by {
        F::law_valid(p[i], x.times(p[i + p.len() / 2].minus(p[i])));
    }
}

/// Setting all variables evaluates the multilinear extension.
pub proof fn law_bind_high_all<F: Field>(p: Seq<F>, xs: Seq<F>)
    requires
        p.len() == pow2(xs.len()),
        field::all_valid(p),
    ensures
        bind_high_all(p, xs).len() == 1,
        bind_high_all(p, xs)[0] == poly::mle(p, xs),
    decreases xs.len(),
{
    if xs.len() == 0 {
        poly::lemma_pow2_zero();
        poly::lemma_mle_point(p, xs);
    } else {
        poly::lemma_pow2_step(xs.len());
        lemma_mle_fold(p, xs);
        lemma_fold_valid(p, xs[0]);
        law_bind_high_all(bind_high(p, xs[0]), xs.skip(1));
    }
}

/// Setting variables one after the other.
pub proof fn lemma_bind_high_push<F: Field>(p: Seq<F>, xs: Seq<F>, x: F)
    ensures
        bind_high_all(p, xs.push(x)) == bind_high(bind_high_all(p, xs), x),
    decreases xs.len(),
{
    reveal_with_fuel(bind_high_all, 2);
    if xs.len() == 0 {
        assert(xs.push(x).skip(1) =~= xs);
    } else {
        lemma_bind_high_push(bind_high(p, xs[0]), xs.skip(1), x);
        assert(xs.push(x).skip(1) =~= xs.skip(1).push(x));
    }
}

/// A multiple of the sum of the products of two columns.
#[derive(Debug)]
pub struct BilinearTerm<F> {
    pub coefficient: F,
    pub left: usize,
    pub right: usize,
}

/// Columns and the products that are summed, as mathematical values.
#[verifier::ext_equal]
pub struct BilinearModel<F> {
    pub columns: Seq<Seq<F>>,
    pub terms: Seq<BilinearTerm<F>>,
}

impl<F: Field> BilinearModel<F> {
    /// Every column has `2^n` evaluations, and the terms read only these columns.
    pub open spec fn shaped(self, n: nat) -> bool {
        &&& forall|c: int|
            0 <= c < self.columns.len() ==> (#[trigger] self.columns[c]).len() == pow2(n)
        &&& forall|k: int|
            0 <= k < self.terms.len() ==> (#[trigger] self.terms[k]).left < self.columns.len()
                && self.terms[k].right < self.columns.len()
    }

    /// The terms read columns of equal length.
    pub open spec fn aligned(self) -> bool {
        forall|k: int|
            0 <= k < self.terms.len() ==> (#[trigger] self.terms[k]).left < self.columns.len()
                && self.terms[k].right < self.columns.len()
                && self.columns[self.terms[k].left as int].len()
                == self.columns[self.terms[k].right as int].len()
    }

    /// Every evaluation is canonical.
    pub open spec fn canonical(self) -> bool {
        forall|c: int| 0 <= c < self.columns.len() ==> field::all_valid(#[trigger] self.columns[c])
    }

    /// The value of one term.
    pub open spec fn term_total(self, k: int) -> F {
        let t = self.terms[k];
        t.coefficient.times(sums::dot(self.columns[t.left as int], self.columns[t.right as int]))
    }

    /// The sum of all terms.
    pub open spec fn total(self) -> F {
        sums::sum(self.terms.len() as int, |k: int| self.term_total(k))
    }

    /// The sum after the most significant variable is set to `x`.
    pub open spec fn bind(self, x: F) -> BilinearModel<F> {
        BilinearModel {
            columns: self.columns.map_values(|p: Seq<F>| bind_high(p, x)),
            terms: self.terms,
        }
    }

    /// The sum after the leading variables are set to `xs`.
    pub open spec fn bind_all(self, xs: Seq<F>) -> BilinearModel<F> {
        BilinearModel {
            columns: self.columns.map_values(|p: Seq<F>| bind_high_all(p, xs)),
            terms: self.terms,
        }
    }
}

pub proof fn lemma_bind_shaped<F: Field>(m: BilinearModel<F>, n: nat, x: F)
    requires
        m.shaped(n),
        n > 0,
    ensures
        m.bind(x).shaped((n - 1) as nat),
        m.bind(x).canonical(),
{
    poly::lemma_pow2_step(n);
    assert forall|c: int| 0 <= c < m.columns.len() implies (#[trigger] m.bind(x).columns[c]).len()
        == pow2((n - 1) as nat) && field::all_valid(m.bind(x).columns[c]) by {
        assert(m.columns[c].len() == pow2(n));
        lemma_fold_valid(m.columns[c], x);
    }
}

/// The values at zero and one of the leading variable make up the sum.
pub proof fn law_halves<F: Field>(m: BilinearModel<F>, n: nat)
    requires
        m.shaped(n),
        m.canonical(),
        n > 0,
    ensures
        m.total() == m.bind(F::of_int(0)).total().plus(m.bind(F::of_int(1)).total()),
{
    let m0 = m.bind(F::of_int(0));
    let m1 = m.bind(F::of_int(1));
    let f0 = |k: int| m0.term_total(k);
    let f1 = |k: int| m1.term_total(k);
    let f = |k: int| m.term_total(k);
    let both = |k: int| f0(k).plus(f1(k));
    let kk = m.terms.len() as int;
    assert forall|k: int| 0 <= k < kk implies #[trigger] f(k) == both(k) by {
        let t = m.terms[k];
        let a = m.columns[t.left as int];
        let b = m.columns[t.right as int];
        lemma_dot_halves(a, b, n);
        assert(m0.columns[t.left as int] == bind_high(a, F::of_int(0)));
        assert(m0.columns[t.right as int] == bind_high(b, F::of_int(0)));
        assert(m1.columns[t.left as int] == bind_high(a, F::of_int(1)));
        assert(m1.columns[t.right as int] == bind_high(b, F::of_int(1)));
        F::law_distrib(
            t.coefficient,
            sums::dot(bind_high(a, F::of_int(0)), bind_high(b, F::of_int(0))),
            sums::dot(bind_high(a, F::of_int(1)), bind_high(b, F::of_int(1))),
        );
    }
    sums::lemma_sum_ext(kk, f, both);
    sums::lemma_sum_plus(kk, f0, f1);
}

proof fn lemma_dot_halves<F: Field>(a: Seq<F>, b: Seq<F>, n: nat)
    requires
        a.len() == pow2(n),
        b.len() == pow2(n),
        field::all_valid(a),
        field::all_valid(b),
        n > 0,
    ensures
        sums::dot(a, b) == sums::dot(
            bind_high(a, F::of_int(0)),
            bind_high(b, F::of_int(0)),
        ).plus(sums::dot(bind_high(a, F::of_int(1)), bind_high(b, F::of_int(1)))),
{
    poly::lemma_pow2_step(n);
    let half = pow2((n - 1) as nat) as int;
    let f = |i: int| a[i].times(b[i]);
    let a0 = bind_high(a, F::of_int(0));
    let b0 = bind_high(b, F::of_int(0));
    let a1 = bind_high(a, F::of_int(1));
    let b1 = bind_high(b, F::of_int(1));
    sums::lemma_sum_split(half, half, f);
    assert forall|i: int| 0 <= i < half implies a0[i] == #[trigger] a[i] && b0[i] == b[i] by {
        field::lemma_line_ends(a[i], a[i + half]);
        field::lemma_line_ends(b[i], b[i + half]);
    }
    assert forall|i: int| 0 <= i < half implies #[trigger] a1[i] == a[i + half] && b1[i] == b[i
        + half] by {
        field::lemma_line_ends(a[i], a[i + half]);
        field::lemma_line_ends(b[i], b[i + half]);
    }
    sums::lemma_sum_ext(half, f, |i: int| a0[i].times(b0[i]));
    sums::lemma_sum_ext(half, |i: int| f(half + i), |i: int| a1[i].times(b1[i]));
    sums::lemma_sum_ext(pow2(n) as int, f, |i: int| a[i].times(b[i]));
}

/// The polynomial in the leading variable of one product of lines.
pub open spec fn product_poly<F: Field>(a: Seq<F>, b: Seq<F>, i: int) -> Seq<F> {
    let half = (a.len() / 2) as int;
    univariate::poly_times(
        seq![a[i], a[i + half].minus(a[i])],
        seq![b[i], b[i + half].minus(b[i])],
    )
}

/// The polynomial in the leading variable of one term.
pub open spec fn term_poly<F: Field>(m: BilinearModel<F>, k: int) -> Seq<F> {
    let t = m.terms[k];
    let a = m.columns[t.left as int];
    let b = m.columns[t.right as int];
    univariate::poly_scale(
        t.coefficient,
        univariate::poly_sum((a.len() / 2) as int, |i: int| product_poly(a, b, i)),
    )
}

/// The polynomial in the leading variable of the whole sum.
pub open spec fn round_poly<F: Field>(m: BilinearModel<F>) -> Seq<F> {
    univariate::poly_sum(m.terms.len() as int, |k: int| term_poly(m, k))
}

/// The sum is a quadratic polynomial in its leading variable.
proof fn lemma_round_poly<F: Field>(m: BilinearModel<F>, n: nat, x: F)
    requires
        m.shaped(n),
        n > 0,
        m.terms.len() > 0,
    ensures
        univariate::eval(round_poly(m), x) == m.bind(x).total(),
        round_poly(m).len() == 3,
{
    let f = |k: int| term_poly(m, k);
    let g = |k: int| univariate::eval(f(k), x);
    let h = |k: int| m.bind(x).term_total(k);
    let kk = m.terms.len() as int;
    poly::lemma_pow2_step(n);
    assert forall|k: int| 0 <= k < kk implies g(k) == h(k) && (#[trigger] f(k)).len() == 3 by {
        let t = m.terms[k];
        let a = m.columns[t.left as int];
        let b = m.columns[t.right as int];
        let half = (a.len() / 2) as int;
        let pf = |i: int| product_poly(a, b, i);
        let pv = |i: int| univariate::eval(pf(i), x);
        let ax = bind_high(a, x);
        let bx = bind_high(b, x);
        let dv = |i: int| ax[i].times(bx[i]);
        assert(b.len() == a.len());
        assert forall|i: int| 0 <= i < half implies (#[trigger] pf(i)).len() == 3 by {
            univariate::lemma_times_len(
                seq![a[i], a[i + half].minus(a[i])],
                seq![b[i], b[i + half].minus(b[i])],
            );
        }
        assert forall|i: int| 0 <= i < half implies #[trigger] pv(i) == dv(i) by {
            let la = seq![a[i], a[i + half].minus(a[i])];
            let lb = seq![b[i], b[i + half].minus(b[i])];
            univariate::lemma_eval_times(la, lb, x);
            F::law_valid(a[i + half], a[i]);
            F::law_valid(b[i + half], b[i]);
            univariate::lemma_eval_line(a[i], a[i + half].minus(a[i]), x);
            univariate::lemma_eval_line(b[i], b[i + half].minus(b[i]), x);
        }
        univariate::lemma_eval_sum(half, pf, x);
        sums::lemma_sum_ext(half, pv, dv);
        sums::lemma_sum_ext(half, |i: int| univariate::eval(pf(i), x), pv);
        sums::lemma_sum_ext(half, dv, |i: int| ax[i].times(bx[i]));
        univariate::lemma_sum_len(half, pf, 3);
        univariate::lemma_eval_scale(t.coefficient, univariate::poly_sum(half, pf), x);
        assert(m.bind(x).columns[t.left as int] == ax);
        assert(m.bind(x).columns[t.right as int] == bx);
    }
    univariate::lemma_eval_sum(kk, f, x);
    sums::lemma_sum_ext(kk, |k: int| univariate::eval(f(k), x), g);
    assert forall|k: int| 0 <= k < kk implies #[trigger] g(k) == h(k) by {
        assert(f(k).len() == 3);
    }
    sums::lemma_sum_ext(kk, g, h);
    univariate::lemma_sum_len(kk, f, 3);
}

/// If a claim is a multiple of the sum, the quadratic polynomial through the multiples of the values
/// at zero and two that adds up to the claim is the multiple as a polynomial in the leading variable.
pub proof fn law_round<F: Field>(m: BilinearModel<F>, n: nat, scale: F, x: F)
    requires
        m.shaped(n),
        m.canonical(),
        n > 0,
        m.terms.len() > 0,
    ensures
        univariate::eval(
            univariate::hinted(
                m.total().times(scale),
                m.bind(F::of_int(0)).total().times(scale),
                m.bind(F::of_int(2)).total().times(scale),
            ),
            x,
        ) == m.bind(x).total().times(scale),
{
    let q = univariate::poly_scale(scale, round_poly(m));
    law_halves(m, n);
    field::lemma_distrib_right(
        scale,
        m.bind(F::of_int(0)).total(),
        m.bind(F::of_int(1)).total(),
    );
    lemma_scaled_round(m, n, scale, F::of_int(0));
    lemma_scaled_round(m, n, scale, F::of_int(1));
    lemma_scaled_round(m, n, scale, F::of_int(2));
    lemma_scaled_round(m, n, scale, x);
    assert forall|i: int| 0 <= i < 3 implies (#[trigger] q[i]).valid() by {
        F::law_valid(scale, round_poly(m)[i]);
    }
    univariate::law_hinted(q);
}

proof fn lemma_scaled_round<F: Field>(m: BilinearModel<F>, n: nat, scale: F, x: F)
    requires
        m.shaped(n),
        n > 0,
        m.terms.len() > 0,
    ensures
        univariate::eval(univariate::poly_scale(scale, round_poly(m)), x) == m.bind(
            x,
        ).total().times(scale),
        univariate::poly_scale(scale, round_poly(m)).len() == 3,
{
    lemma_round_poly(m, n, x);
    univariate::lemma_eval_scale(scale, round_poly(m), x);
    F::law_times_comm(scale, m.bind(x).total());
}

/// Setting variables one after the other.
pub proof fn lemma_bind_all_push<F: Field>(m: BilinearModel<F>, xs: Seq<F>, x: F)
    ensures
        m.bind_all(xs.push(x)) == m.bind_all(xs).bind(x),
        m.bind_all(Seq::empty()) == m,
{
    assert forall|c: int| 0 <= c < m.columns.len() implies #[trigger] m.bind_all(
        xs.push(x),
    ).columns[c] == m.bind_all(xs).bind(x).columns[c] by {
        lemma_bind_high_push(m.columns[c], xs, x);
    }
    assert(m.bind_all(xs.push(x)) =~= m.bind_all(xs).bind(x));
    assert(m.bind_all(Seq::empty()) =~= m);
}

/// Setting leading variables leaves the others.
pub proof fn lemma_bind_all_shaped<F: Field>(m: BilinearModel<F>, n: nat, xs: Seq<F>)
    requires
        m.shaped(n),
        m.canonical(),
        xs.len() <= n,
    ensures
        m.bind_all(xs).shaped((n - xs.len()) as nat),
        m.bind_all(xs).canonical(),
    decreases xs.len(),
{
    if xs.len() == 0 {
        assert(xs =~= Seq::<F>::empty());
        lemma_bind_all_push(m, xs, F::of_int(0));
    } else {
        let before = xs.drop_last();
        assert(before.push(xs.last()) =~= xs);
        lemma_bind_all_push(m, before, xs.last());
        lemma_bind_all_shaped(m, n, before);
        lemma_bind_shaped(m.bind_all(before), (n - before.len()) as nat, xs.last());
    }
}

/// Columns and the products that are summed.
#[derive(Debug)]
pub struct FoldingSum<F> {
    pub columns: Vec<Vec<F>>,
    pub terms: Vec<BilinearTerm<F>>,
}

impl<F: Field> View for FoldingSum<F> {
    type V = BilinearModel<F>;

    open spec fn view(&self) -> BilinearModel<F> {
        BilinearModel { columns: poly::contents(self.columns@), terms: self.terms@ }
    }
}

fn line_at<F: Field>(lo: F, hi: F, x: F) -> (r: F)
    ensures
        r == line(lo, hi, x),
{
    lo.add(x.mul(hi.sub(lo)))
}

fn dot_at<F: Field>(a: &Vec<F>, b: &Vec<F>, x: F) -> (r: F)
    requires
        a@.len() == b@.len(),
    ensures
        r == sums::dot(bind_high(a@, x), bind_high(b@, x)),
{
    let len: usize = a.len();
    let half: usize = len / 2;
    let ghost ax = bind_high(a@, x);
    let ghost bx = bind_high(b@, x);
    let ghost f = |i: int| ax[i].times(bx[i]);
    let mut out: F = field::zero();
    for i in 0..half
        invariant
            len == a@.len(),
            half == len / 2,
            a@.len() == b@.len(),
            ax == bind_high(a@, x),
            bx == bind_high(b@, x),
            f == (|i: int| ax[i].times(bx[i])),
            out == sums::sum(i as int, f),
    {
        let left: F = line_at(a[i], a[i + half], x);
        let right: F = line_at(b[i], b[i + half], x);
        out = out.add(left.mul(right));
    }
    out
}

fn fold<F: Field>(p: &Vec<F>, x: F) -> (r: Vec<F>)
    ensures
        r@ == bind_high(p@, x),
{
    let len: usize = p.len();
    let half: usize = len / 2;
    let mut out: Vec<F> = Vec::new();
    for i in 0..half
        invariant
            len == p@.len(),
            half == len / 2,
            out@ == bind_high(p@, x).take(i as int),
    {
        out.push(line_at(p[i], p[i + half], x));
        assert(out@ =~= bind_high(p@, x).take(i + 1));
    }
    assert(out@ =~= bind_high(p@, x));
    out
}

impl<F: Field> FoldingSum<F> {
    /// The sum with the most significant variable set to `x`.
    pub fn evaluate_at(&self, x: F) -> (r: F)
        requires
            self@.aligned(),
        ensures
            r == self@.bind(x).total(),
    {
        let ghost m = self@.bind(x);
        let ghost f = |k: int| m.term_total(k);
        let mut out: F = field::zero();
        for k in 0..self.terms.len()
            invariant
                self@.aligned(),
                m == self@.bind(x),
                f == (|k: int| m.term_total(k)),
                out == sums::sum(k as int, f),
        {
            let t: &BilinearTerm<F> = &self.terms[k];
            assert(self@.terms[k as int] == *t);
            assert(self@.columns[t.left as int] == self.columns@[t.left as int]@);
            assert(self@.columns[t.right as int] == self.columns@[t.right as int]@);
            let d: F = dot_at(&self.columns[t.left], &self.columns[t.right], x);
            out = out.add(t.coefficient.mul(d));
        }
        out
    }

    /// Set the most significant variable to `x`.
    pub fn bind(&mut self, x: F)
        ensures
            final(self)@ == old(self)@.bind(x),
    {
        let mut columns: Vec<Vec<F>> = Vec::new();
        let ghost m = self@.bind(x);
        for c in 0..self.columns.len()
            invariant
                self@ == old(self)@,
                m == self@.bind(x),
                poly::contents(columns@) == m.columns.take(c as int),
        {
            let ghost before = columns@;
            let column: Vec<F> = fold(&self.columns[c], x);
            assert(self@.columns[c as int] == self.columns@[c as int]@);
            columns.push(column);
            assert(poly::contents(columns@) =~= poly::contents(before).push(column@));
            assert(m.columns.take(c + 1) =~= m.columns.take(c as int).push(m.columns[c as int]));
        }
        assert(poly::contents(columns@) =~= m.columns);
        self.columns = columns;
    }

    /// The next message: the quadratic polynomial in the leading variable, scaled, that adds up to
    /// a claim.
    pub fn message(&self, scale: F, claim: F) -> (r: UnivariatePoly<F>)
        requires
            self@.aligned(),
        ensures
            r@ == univariate::hinted(
                claim,
                self@.bind(F::of_int(0)).total().times(scale),
                self@.bind(F::of_int(2)).total().times(scale),
            ),
    {
        let at_zero: F = self.evaluate_at(field::zero()).mul(scale);
        let at_two: F = self.evaluate_at(F::from_u64(2)).mul(scale);
        UnivariatePoly::from_evals_and_hint(claim, at_zero, at_two)
    }
}

} // verus!
