//! Multilinear polynomials given by their evaluations over the hypercube, and the tables of the
//! equality, less-than and successor polynomials.
//!
//! Points are big-endian: the first coordinate belongs to the most significant bit of an index.
//! Variables are bound from the least significant one upwards.

use crate::field;
use crate::field::Field;
use crate::framework::sums;
use vstd::arithmetic::power2::pow2;
use vstd::prelude::*;

verus! {

/// The evaluations left after the least significant variable is set to `x`.
pub open spec fn bind<F: Field>(p: Seq<F>, x: F) -> Seq<F> {
    Seq::new(
        (p.len() / 2) as nat,
        |j: int| p[2 * j].plus(x.times(p[2 * j + 1].minus(p[2 * j]))),
    )
}

/// The evaluations left after the variables are set one after the other.
pub open spec fn bind_all<F: Field>(p: Seq<F>, xs: Seq<F>) -> Seq<F>
    decreases xs.len(),
{
    if xs.len() == 0 {
        p
    } else {
        bind_all(bind(p, xs[0]), xs.skip(1))
    }
}

/// `1 - x`.
pub open spec fn complement<F: Field>(x: F) -> F {
    F::of_int(1).minus(x)
}

/// The equality polynomial at the point `r` and the index `i`.
pub open spec fn eq_weight<F: Field>(r: Seq<F>, i: int) -> F
    decreases r.len(),
{
    if r.len() == 0 {
        F::of_int(1)
    } else {
        eq_weight(r.drop_last(), i / 2).times(
            if i % 2 == 1 {
                r.last()
            } else {
                complement(r.last())
            },
        )
    }
}

/// The equality polynomial at `r` over all indices.
pub open spec fn eq_table<F: Field>(r: Seq<F>) -> Seq<F> {
    Seq::new(pow2(r.len()), |i: int| eq_weight(r, i))
}

/// The multilinear extension of the evaluations `p` at the point `r`.
pub open spec fn mle<F: Field>(p: Seq<F>, r: Seq<F>) -> F {
    sums::sum(p.len() as int, |i: int| p[i].times(eq_weight(r, i)))
}

/// The equality polynomial at two points.
pub open spec fn eq_mle<F: Field>(a: Seq<F>, b: Seq<F>) -> F
    decreases a.len(),
{
    if a.len() == 0 {
        F::of_int(1)
    } else {
        eq_mle(a.drop_last(), b.drop_last()).times(
            a.last().times(b.last()).plus(complement(a.last()).times(complement(b.last()))),
        )
    }
}

/// The less-than polynomial at the index `i` and the point `r`: whether `i < r`.
pub open spec fn lt_weight<F: Field>(r: Seq<F>, i: int) -> F
    decreases r.len(),
{
    if r.len() == 0 {
        F::of_int(0)
    } else {
        lt_weight(r.drop_last(), i / 2).plus(
            eq_weight(r.drop_last(), i / 2).times(
                if i % 2 == 1 {
                    F::of_int(0)
                } else {
                    r.last()
                },
            ),
        )
    }
}

/// The less-than polynomial at `r` over all indices.
pub open spec fn lt_table<F: Field>(r: Seq<F>) -> Seq<F> {
    Seq::new(pow2(r.len()), |i: int| lt_weight(r, i))
}

/// The less-than polynomial at two points: whether `x < r`.
pub open spec fn lt_mle<F: Field>(x: Seq<F>, r: Seq<F>) -> F
    decreases x.len(),
{
    if x.len() == 0 {
        F::of_int(0)
    } else {
        lt_mle(x.drop_last(), r.drop_last()).plus(
            eq_mle(r.drop_last(), x.drop_last()).times(complement(x.last()).times(r.last())),
        )
    }
}

/// The successor polynomial at the point `r` and the index `i`: whether `i = r + 1`.
pub open spec fn eq_plus_one_weight<F: Field>(r: Seq<F>, i: int) -> F
    decreases r.len(),
{
    if r.len() == 0 {
        F::of_int(0)
    } else if i % 2 == 1 {
        eq_weight(r.drop_last(), i / 2).times(complement(r.last()))
    } else {
        eq_plus_one_weight(r.drop_last(), i / 2).times(r.last())
    }
}

/// The successor polynomial at `r` over all indices.
pub open spec fn eq_plus_one_table<F: Field>(r: Seq<F>) -> Seq<F> {
    Seq::new(pow2(r.len()), |i: int| eq_plus_one_weight(r, i))
}

/// The successor polynomial at two points: whether `y = r + 1`.
pub open spec fn eq_plus_one_mle<F: Field>(r: Seq<F>, y: Seq<F>) -> F
    decreases r.len(),
{
    if r.len() == 0 {
        F::of_int(0)
    } else {
        eq_mle(r.drop_last(), y.drop_last()).times(complement(r.last()).times(y.last())).plus(
            eq_plus_one_mle(r.drop_last(), y.drop_last()).times(
                r.last().times(complement(y.last())),
            ),
        )
    }
}

pub proof fn lemma_pow2_step(n: nat)
    requires
        n > 0,
    ensures
        pow2(n) == 2 * pow2((n - 1) as nat),
        pow2(n) / 2 == pow2((n - 1) as nat),
        pow2((n - 1) as nat) > 0,
{
    vstd::arithmetic::power2::lemma_pow2_unfold(n);
    vstd::arithmetic::power2::lemma_pow2_pos((n - 1) as nat);
}

pub proof fn lemma_pow2_zero()
    ensures
        pow2(0) == 1,
{
    vstd::arithmetic::power2::lemma2_to64();
}

pub proof fn lemma_eq_weight_valid<F: Field>(r: Seq<F>, i: int)
    ensures
        eq_weight(r, i).valid(),
{
    if r.len() == 0 {
        F::law_of_int_valid(1);
    } else {
        F::law_valid(
            eq_weight(r.drop_last(), i / 2),
            if i % 2 == 1 {
                r.last()
            } else {
                complement(r.last())
            },
        );
    }
}

pub proof fn lemma_mle_valid<F: Field>(p: Seq<F>, r: Seq<F>)
    ensures
        mle(p, r).valid(),
{
    sums::lemma_sum_valid(p.len() as int, |i: int| p[i].times(eq_weight(r, i)));
}

/// `a (w (1 - x)) + b (w x) = (a + x (b - a)) w`.
pub proof fn lemma_bind_term<F: Field>(a: F, b: F, w: F, x: F)
    requires
        w.valid(),
    ensures
        a.times(w.times(complement(x))).plus(b.times(w.times(x))) == a.plus(
            x.times(b.minus(a)),
        ).times(w),
{
    let aw = a.times(w);
    let bw = b.times(w);
    // left side
    field::lemma_distrib_minus(w, F::of_int(1), x);
    F::law_times_one(w);
    field::lemma_distrib_minus(a, w, w.times(x));
    assert(a.times(w.times(complement(x))) == aw.minus(a.times(w.times(x))));
    F::law_times_assoc(a, w, x);
    F::law_times_comm(aw, x);
    F::law_times_assoc(b, w, x);
    F::law_times_comm(bw, x);
    // right side
    field::lemma_distrib_right(w, a, x.times(b.minus(a)));
    F::law_times_assoc(x, b.minus(a), w);
    field::lemma_distrib_minus(w, b, a);
    field::lemma_distrib_minus(x, bw, aw);
    // (A - B) + C = A + (C - B)
    field::lemma_minus_then_plus(aw, x.times(aw), x.times(bw));
}

/// Setting the last variable first does not change the multilinear extension.
pub proof fn lemma_mle_step<F: Field>(p: Seq<F>, r: Seq<F>)
    requires
        r.len() > 0,
        p.len() % 2 == 0,
    ensures
        mle(p, r) == mle(bind(p, r.last()), r.drop_last()),
{
    let n = (p.len() / 2) as int;
    let x = r.last();
    let q = bind(p, x);
    let r1 = r.drop_last();
    let f = |i: int| p[i].times(eq_weight(r, i));
    let g = |i: int| q[i].times(eq_weight(r1, i));
    let pairs = |j: int| f(2 * j).plus(f(2 * j + 1));
    sums::lemma_sum_pairs(n, f);
    assert forall|j: int| 0 <= j < n implies #[trigger] pairs(j) == g(j) by {
        let w = eq_weight(r1, j);
        lemma_eq_weight_valid(r1, j);
        assert((2 * j) / 2 == j && (2 * j) % 2 == 0);
        assert((2 * j + 1) / 2 == j && (2 * j + 1) % 2 == 1);
        assert(eq_weight(r, 2 * j) == w.times(complement(x)));
        assert(eq_weight(r, 2 * j + 1) == w.times(x));
        lemma_bind_term(p[2 * j], p[2 * j + 1], w, x);
    }
    sums::lemma_sum_ext(n, pairs, g);
    assert(p.len() == 2 * n);
}

pub proof fn lemma_bind_valid<F: Field>(p: Seq<F>, x: F)
    ensures
        field::all_valid(bind(p, x)),
{
    assert forall|j: int| 0 <= j < bind(p, x).len() implies (#[trigger] bind(p, x)[j]).valid() by {
        F::law_valid(p[2 * j], x.times(p[2 * j + 1].minus(p[2 * j])));
    }
}

/// The multilinear extension over no variables is the only evaluation.
pub proof fn lemma_mle_point<F: Field>(p: Seq<F>, r: Seq<F>)
    requires
        p.len() == 1,
        r.len() == 0,
        p[0].valid(),
    ensures
        mle(p, r) == p[0],
{
    let f = |i: int| p[i].times(eq_weight(r, i));
    assert(sums::sum(0, f) == F::of_int(0));
    assert(sums::sum(1, f) == sums::sum(0, f).plus(f(0)));
    F::law_times_one(p[0]);
    field::lemma_zero_plus(p[0]);
}

pub proof fn lemma_bind_all_len<F: Field>(p: Seq<F>, xs: Seq<F>, n: nat)
    requires
        p.len() == pow2(n),
        xs.len() <= n,
    ensures
        bind_all(p, xs).len() == pow2((n - xs.len()) as nat),
    decreases xs.len(),
{
    if xs.len() > 0 {
        lemma_pow2_step(n);
        lemma_bind_all_len(bind(p, xs[0]), xs.skip(1), (n - 1) as nat);
    }
}

/// Binding every variable from the least significant one upwards evaluates the multilinear
/// extension at the reversed challenges.
pub proof fn lemma_bind_all_is_mle<F: Field>(p: Seq<F>, xs: Seq<F>)
    requires
        p.len() == pow2(xs.len()),
        field::all_valid(p),
    ensures
        bind_all(p, xs).len() == 1,
        bind_all(p, xs)[0] == mle(p, xs.reverse()),
    decreases xs.len(),
{
    lemma_pow2_zero();
    if xs.len() == 0 {
        assert(p[0].valid());
        lemma_mle_point(p, xs.reverse());
    } else {
        let q = bind(p, xs[0]);
        let r = xs.reverse();
        lemma_pow2_step(xs.len());
        lemma_bind_valid(p, xs[0]);
        lemma_bind_all_is_mle(q, xs.skip(1));
        assert(r.last() == xs[0]);
        assert(xs.skip(1).reverse() =~= r.drop_last());
        lemma_mle_step(p, r);
    }
}

/// A scaled table has the scaled multilinear extension.
pub proof fn lemma_mle_scale<F: Field>(c: F, p: Seq<F>, q: Seq<F>, r: Seq<F>)
    requires
        p.len() == q.len(),
        forall|i: int| 0 <= i < p.len() ==> #[trigger] q[i] == c.times(p[i]),
    ensures
        mle(q, r) == c.times(mle(p, r)),
{
    let f = |i: int| p[i].times(eq_weight(r, i));
    let g = |i: int| q[i].times(eq_weight(r, i));
    let h = |i: int| c.times(f(i));
    assert forall|i: int| 0 <= i < p.len() implies #[trigger] g(i) == h(i) by {
        assert(q[i] == c.times(p[i]));
        F::law_times_assoc(c, p[i], eq_weight(r, i));
    }
    sums::lemma_sum_ext(p.len() as int, g, h);
    sums::lemma_sum_scale(p.len() as int, c, f);
}

/// A sum of tables has the sum of the multilinear extensions.
pub proof fn lemma_mle_plus<F: Field>(p: Seq<F>, q: Seq<F>, s: Seq<F>, r: Seq<F>)
    requires
        p.len() == s.len(),
        q.len() == s.len(),
        forall|i: int| 0 <= i < s.len() ==> #[trigger] s[i] == p[i].plus(q[i]),
    ensures
        mle(s, r) == mle(p, r).plus(mle(q, r)),
{
    let f = |i: int| p[i].times(eq_weight(r, i));
    let g = |i: int| q[i].times(eq_weight(r, i));
    let h = |i: int| s[i].times(eq_weight(r, i));
    let k = |i: int| f(i).plus(g(i));
    assert forall|i: int| 0 <= i < s.len() implies #[trigger] h(i) == k(i) by {
        assert(s[i] == p[i].plus(q[i]));
        field::lemma_distrib_right(eq_weight(r, i), p[i], q[i]);
    }
    sums::lemma_sum_ext(s.len() as int, h, k);
    sums::lemma_sum_plus(s.len() as int, f, g);
}

/// `w (1 - r) + x (w r - w (1 - r)) = (r x + (1 - r) (1 - x)) w`.
proof fn lemma_eq_bind_term<F: Field>(w: F, r: F, x: F)
    requires
        w.valid(),
    ensures
        w.times(complement(r)).plus(x.times(w.times(r).minus(w.times(complement(r))))) == r.times(
            x,
        ).plus(complement(r).times(complement(x))).times(w),
{
    let u = complement(r);
    F::law_valid(F::of_int(1), r);
    // u + x (r - u) = r x + u (1 - x)
    F::law_of_int_valid(1);
    lemma_bind_term(u, r, F::of_int(1), x);
    F::law_valid(F::of_int(1), x);
    field::lemma_one_times(complement(x));
    let one = F::of_int(1);
    let line = u.plus(x.times(r.minus(u)));
    F::law_valid(u, x.times(r.minus(u)));
    F::law_times_one(line);
    assert(u.times(complement(x)).plus(r.times(one.times(x))) == line);
    F::law_times_assoc(r, one, x);
    F::law_times_comm(r, one);
    F::law_times_assoc(one, r, x);
    F::law_valid(r, x);
    field::lemma_one_times(r.times(x));
    F::law_plus_comm(u.times(complement(x)), r.times(x));
    // pull w out
    field::lemma_distrib_minus(w, r, u);
    field::lemma_times_swap(x, w, r.minus(u));
    F::law_distrib(w, u, x.times(r.minus(u)));
    F::law_times_comm(w, line);
}

/// The multilinear extension of the equality table is the equality polynomial.
pub proof fn lemma_mle_eq_table<F: Field>(r: Seq<F>, y: Seq<F>)
    requires
        r.len() == y.len(),
    ensures
        mle(eq_table(r), y) == eq_mle(r, y),
    decreases r.len(),
{
    let t = eq_table(r);
    lemma_pow2_zero();
    if r.len() == 0 {
        F::law_of_int_valid(1);
        lemma_mle_point(t, y);
    } else {
        let r1 = r.drop_last();
        let y1 = y.drop_last();
        let e = r.last().times(y.last()).plus(complement(r.last()).times(complement(y.last())));
        lemma_pow2_step(r.len());
        lemma_mle_step(t, y);
        let q = bind(t, y.last());
        let p = eq_table(r1);
        assert forall|j: int| 0 <= j < p.len() implies #[trigger] q[j] == e.times(p[j]) by {
            assert((2 * j) / 2 == j && (2 * j) % 2 == 0);
            assert((2 * j + 1) / 2 == j && (2 * j + 1) % 2 == 1);
            lemma_eq_weight_valid(r1, j);
            lemma_eq_bind_term(p[j], r.last(), y.last());
        }
        lemma_mle_scale(e, p, q, y1);
        lemma_mle_eq_table(r1, y1);
        F::law_times_comm(e, eq_mle(r1, y1));
    }
}

/// The equality polynomial is symmetric.
pub proof fn lemma_eq_mle_comm<F: Field>(a: Seq<F>, b: Seq<F>)
    requires
        a.len() == b.len(),
    ensures
        eq_mle(a, b) == eq_mle(b, a),
    decreases a.len(),
{
    if a.len() > 0 {
        lemma_eq_mle_comm(a.drop_last(), b.drop_last());
        F::law_times_comm(a.last(), b.last());
        F::law_times_comm(complement(a.last()), complement(b.last()));
    }
}

/// The multilinear extension of the less-than table is the less-than polynomial.
pub proof fn lemma_mle_lt_table<F: Field>(r: Seq<F>, y: Seq<F>)
    requires
        r.len() == y.len(),
    ensures
        mle(lt_table(r), y) == lt_mle(y, r),
    decreases r.len(),
{
    let t = lt_table(r);
    lemma_pow2_zero();
    if r.len() == 0 {
        F::law_of_int_valid(0);
        lemma_mle_point(t, y);
    } else {
        let r1 = r.drop_last();
        let y1 = y.drop_last();
        let rl = r.last();
        let x = y.last();
        let k = complement(x).times(rl);
        lemma_pow2_step(r.len());
        lemma_mle_step(t, y);
        let q = bind(t, x);
        let p = lt_table(r1);
        let e = eq_table(r1);
        let ke = Seq::new(e.len(), |i: int| k.times(e[i]));
        assert forall|j: int| 0 <= j < p.len() implies #[trigger] q[j] == p[j].plus(ke[j]) by {
            assert((2 * j) / 2 == j && (2 * j) % 2 == 0);
            assert((2 * j + 1) / 2 == j && (2 * j + 1) % 2 == 1);
            lemma_lt_bind_term(p[j], e[j], rl, x);
            F::law_times_comm(e[j], k);
        }
        lemma_mle_plus(p, ke, q, y1);
        lemma_mle_scale(k, e, ke, y1);
        lemma_mle_lt_table(r1, y1);
        lemma_mle_eq_table(r1, y1);
        F::law_times_comm(k, eq_mle(r1, y1));
    }
}

/// `(a + e r) + x ((a + e 0) - (a + e r)) = a + e ((1 - x) r)`.
proof fn lemma_lt_bind_term<F: Field>(a: F, e: F, r: F, x: F)
    ensures
        a.plus(e.times(r)).plus(
            x.times(a.plus(e.times(F::of_int(0))).minus(a.plus(e.times(r)))),
        ) == a.plus(e.times(complement(x).times(r))),
{
    let z = F::of_int(0);
    let er = e.times(r);
    let s = a.plus(er);
    let m = F::of_int(-1);
    F::law_times_zero(e);
    let a0 = a.plus(z);
    // a0 - s = -er
    F::law_minus(a0, s);
    field::lemma_distrib_right(m, a, er);
    F::law_plus_assoc(a0, a.times(m), er.times(m));
    field::lemma_plus_absorbs_zero(a, a.times(m));
    F::law_minus(a, a);
    field::lemma_minus_self(a);
    F::law_valid(er, m);
    field::lemma_zero_plus(er.times(m));
    assert(a0.minus(s) == er.times(m));
    // s + x (er m) = a + (er + x (er m))
    F::law_plus_assoc(a, er, x.times(er.times(m)));
    // er + x (er m) = er - x er
    F::law_times_assoc(x, er, m);
    F::law_minus(er, x.times(er));
    // (1 - x) er = er - x er
    field::lemma_distrib_minus(er, F::of_int(1), x);
    F::law_valid(e, r);
    field::lemma_one_times(er);
    // e ((1 - x) r) = (1 - x) er
    field::lemma_times_swap(e, complement(x), r);
}

/// The multilinear extension of the successor table is the successor polynomial.
pub proof fn lemma_mle_eq_plus_one_table<F: Field>(r: Seq<F>, y: Seq<F>)
    requires
        r.len() == y.len(),
    ensures
        mle(eq_plus_one_table(r), y) == eq_plus_one_mle(r, y),
    decreases r.len(),
{
    let t = eq_plus_one_table(r);
    lemma_pow2_zero();
    if r.len() == 0 {
        F::law_of_int_valid(0);
        lemma_mle_point(t, y);
    } else {
        let r1 = r.drop_last();
        let y1 = y.drop_last();
        let rl = r.last();
        let x = y.last();
        let ke = complement(rl).times(x);
        let ks = rl.times(complement(x));
        lemma_pow2_step(r.len());
        lemma_mle_step(t, y);
        let q = bind(t, x);
        let p = eq_plus_one_table(r1);
        let e = eq_table(r1);
        let se = Seq::new(e.len(), |i: int| ke.times(e[i]));
        let sp = Seq::new(p.len(), |i: int| ks.times(p[i]));
        assert forall|j: int| 0 <= j < p.len() implies #[trigger] q[j] == se[j].plus(sp[j]) by {
            assert((2 * j) / 2 == j && (2 * j) % 2 == 0);
            assert((2 * j + 1) / 2 == j && (2 * j + 1) % 2 == 1);
            // q = p rl + x (e (1 - rl) - p rl)
            let a = p[j].times(rl);
            let b = e[j].times(complement(rl));
            let one = F::of_int(1);
            F::law_of_int_valid(1);
            lemma_bind_term(a, b, one, x);
            F::law_valid(one, x);
            field::lemma_one_times(complement(x));
            F::law_valid(a, x.times(b.minus(a)));
            F::law_times_one(a.plus(x.times(b.minus(a))));
            F::law_times_assoc(b, one, x);
            F::law_valid(e[j], complement(rl));
            F::law_times_one(b);
            F::law_times_assoc(p[j], rl, complement(x));
            F::law_times_comm(p[j], ks);
            F::law_times_assoc(e[j], complement(rl), x);
            F::law_times_comm(e[j], ke);
            F::law_plus_comm(sp[j], se[j]);
        }
        lemma_mle_plus(se, sp, q, y1);
        lemma_mle_scale(ke, e, se, y1);
        lemma_mle_scale(ks, p, sp, y1);
        lemma_mle_eq_plus_one_table(r1, y1);
        lemma_mle_eq_table(r1, y1);
        F::law_times_comm(ke, eq_mle(r1, y1));
        F::law_times_comm(ks, eq_plus_one_mle(r1, y1));
    }
}

/// Summing a column against the equality table evaluates its multilinear extension.
pub proof fn lemma_sum_eq_times<F: Field>(r: Seq<F>, s: Seq<F>)
    requires
        s.len() == pow2(r.len()),
    ensures
        sums::sum(s.len() as int, |i: int| eq_table(r)[i].times(s[i])) == mle(s, r),
{
    let f = |i: int| eq_table(r)[i].times(s[i]);
    let g = |i: int| s[i].times(eq_weight(r, i));
    assert forall|i: int| 0 <= i < s.len() implies #[trigger] f(i) == g(i) by {
        F::law_times_comm(s[i], eq_weight(r, i));
    }
    sums::lemma_sum_ext(s.len() as int, f, g);
}

/// A column repeated to `size` evaluations.
pub open spec fn broadcast_column<F: Field>(p: Seq<F>, size: nat) -> Seq<F> {
    Seq::new(size, |i: int| p[i % (p.len() as int)])
}

pub proof fn lemma_broadcast_valid<F: Field>(p: Seq<F>, size: nat)
    requires
        p.len() > 0,
    ensures
        field::all_valid(p) ==> field::all_valid(broadcast_column(p, size)),
{
    if field::all_valid(p) {
        assert forall|i: int| 0 <= i < size implies (#[trigger] broadcast_column(
            p,
            size,
        )[i]).valid() by {
            assert(p[i % (p.len() as int)].valid());
        }
    }
}

/// A constant column has its constant as multilinear extension.
pub proof fn lemma_mle_constant<F: Field>(c: F, p: Seq<F>, y: Seq<F>)
    requires
        c.valid(),
        p.len() == pow2(y.len()),
        forall|i: int| 0 <= i < p.len() ==> #[trigger] p[i] == c,
    ensures
        mle(p, y) == c,
    decreases y.len(),
{
    lemma_pow2_zero();
    if y.len() == 0 {
        lemma_mle_point(p, y);
    } else {
        lemma_pow2_step(y.len());
        lemma_mle_step(p, y);
        let q = bind(p, y.last());
        assert forall|i: int| 0 <= i < q.len() implies #[trigger] q[i] == c by {
            assert(p[2 * i] == c && p[2 * i + 1] == c);
            field::lemma_minus_self(c);
            field::lemma_zero_times(y.last());
            F::law_plus_zero(c);
        }
        lemma_mle_constant(c, q, y.drop_last());
    }
}

/// A column repeated over leading variables does not depend on them.
pub proof fn lemma_mle_broadcast<F: Field>(p: Seq<F>, y: Seq<F>, k: nat)
    requires
        k <= y.len(),
        p.len() == pow2((y.len() - k) as nat),
        field::all_valid(p),
    ensures
        mle(broadcast_column(p, pow2(y.len())), y) == mle(p, y.skip(k as int)),
    decreases y.len(),
{
    lemma_pow2_zero();
    let b = broadcast_column(p, pow2(y.len()));
    let tail = y.skip(k as int);
    if y.len() == k {
        lemma_mle_point(p, tail);
        assert forall|i: int| 0 <= i < b.len() implies #[trigger] b[i] == p[0] by {
            assert(i % 1 == 0);
        }
        lemma_mle_constant(p[0], b, y);
    } else {
        let n = (y.len() - k) as nat;
        let x = y.last();
        let y1 = y.drop_last();
        let q = bind(p, x);
        lemma_pow2_step(y.len());
        lemma_pow2_step(n);
        lemma_mle_step(b, y);
        lemma_mle_step(p, tail);
        assert(tail.last() == x);
        assert(tail.drop_last() =~= y1.skip(k as int));
        lemma_bind_valid(p, x);
        lemma_mle_broadcast(q, y1, k);
        let half = q.len() as int;
        assert(bind(b, x) =~= broadcast_column(q, pow2(y1.len()))) by {
            assert forall|j: int| 0 <= j < pow2(y1.len()) implies bind(b, x)[j]
                == broadcast_column(q, pow2(y1.len()))[j] by {
                let m = j % half;
                vstd::arithmetic::div_mod::lemma_fundamental_div_mod(j, half);
                let d = j / half;
                assert(2 * j == (2 * half) * d + 2 * m) by (nonlinear_arith)
                    requires
                        j == half * d + m,
                ;
                vstd::arithmetic::div_mod::lemma_fundamental_div_mod_converse(
                    2 * j,
                    2 * half,
                    d,
                    2 * m,
                );
                vstd::arithmetic::div_mod::lemma_fundamental_div_mod_converse(
                    2 * j + 1,
                    2 * half,
                    d,
                    2 * m + 1,
                );
            }
        }
    }
}

/// The equality polynomial of a concatenated point is the product over its two parts.
pub proof fn lemma_eq_weight_concat<F: Field>(a: Seq<F>, b: Seq<F>, k: int, j: int)
    requires
        0 <= j < pow2(b.len()),
    ensures
        eq_weight(a + b, k * pow2(b.len()) + j) == eq_weight(a, k).times(eq_weight(b, j)),
    decreases b.len(),
{
    lemma_pow2_zero();
    let s = a + b;
    let i = k * pow2(b.len()) + j;
    if b.len() == 0 {
        assert(s =~= a);
        assert(k * 1 == k);
        lemma_eq_weight_valid(a, k);
        F::law_times_one(eq_weight(a, k));
    } else {
        let b1 = b.drop_last();
        lemma_pow2_step(b.len());
        let half = pow2(b1.len()) as int;
        assert(s.drop_last() =~= a + b1);
        assert(s.last() == b.last());
        assert(i == 2 * (k * half) + j) by (nonlinear_arith)
            requires
                i == k * (2 * half) + j,
        ;
        assert(i / 2 == k * half + j / 2);
        assert(i % 2 == j % 2);
        lemma_eq_weight_concat(a, b1, k, j / 2);
        let w = if j % 2 == 1 {
            b.last()
        } else {
            complement(b.last())
        };
        F::law_times_assoc(eq_weight(a, k), eq_weight(b1, j / 2), w);
    }
}

/// Leading zero coordinates do not change the equality polynomial at a short index.
pub proof fn lemma_eq_weight_zero_prefix<F: Field>(z: Seq<F>, r: Seq<F>, i: int)
    requires
        forall|j: int| 0 <= j < z.len() ==> #[trigger] z[j] == F::of_int(0),
        0 <= i < pow2(r.len()),
    ensures
        eq_weight(z + r, i) == eq_weight(r, i),
{
    lemma_eq_weight_concat(z, r, 0, i);
    lemma_eq_weight_zeros(z);
    lemma_eq_weight_valid(r, i);
    field::lemma_one_times(eq_weight(r, i));
}

proof fn lemma_eq_weight_zeros<F: Field>(z: Seq<F>)
    requires
        forall|j: int| 0 <= j < z.len() ==> #[trigger] z[j] == F::of_int(0),
    ensures
        eq_weight(z, 0) == F::of_int(1),
    decreases z.len(),
{
    if z.len() > 0 {
        lemma_eq_weight_zeros(z.drop_last());
        assert(z.last() == F::of_int(0));
        F::law_minus(F::of_int(1), F::of_int(0));
        F::law_of_int_times(0, -1);
        F::law_of_int_plus(1, 0);
        F::law_of_int_times(1, 1);
    }
}

/// The tensor product of an address column and a cycle column, address-major.
pub open spec fn tensor<F: Field>(a: Seq<F>, b: Seq<F>) -> Seq<F> {
    Seq::new(a.len() * b.len(), |i: int| a[i / (b.len() as int)].times(b[i % (b.len() as int)]))
}

pub proof fn lemma_pow2_concat(a: nat, b: nat)
    ensures
        pow2(a + b) == pow2(a) * pow2(b),
{
    vstd::arithmetic::power2::lemma_pow2_adds(a, b);
}

pub proof fn lemma_block_index(k: int, t: int, j: int)
    requires
        0 <= j < t,
        k >= 0,
    ensures
        (k * t + j) / t == k,
        (k * t + j) % t == j,
        k * t + j >= 0,
{
    vstd::arithmetic::div_mod::lemma_fundamental_div_mod_converse(k * t + j, t, k, j);
    assert(k * t >= 0) by (nonlinear_arith)
        requires
            k >= 0,
            t > 0,
    ;
}

/// The multilinear extension of an address-major matrix at a concatenated point is the double sum
/// over addresses and cycles.
pub proof fn lemma_mle_matrix<F: Field>(p: Seq<F>, a: Seq<F>, b: Seq<F>)
    requires
        p.len() == pow2(a.len()) * pow2(b.len()),
    ensures
        mle(p, a + b) == sums::sum(
            pow2(a.len()) as int,
            |k: int|
                eq_weight(a, k).times(
                    sums::sum(
                        pow2(b.len()) as int,
                        |j: int| p[k * pow2(b.len()) + j].times(eq_weight(b, j)),
                    ),
                ),
        ),
{
    let kk = pow2(a.len()) as int;
    let t = pow2(b.len()) as int;
    vstd::arithmetic::power2::lemma_pow2_pos(a.len());
    vstd::arithmetic::power2::lemma_pow2_pos(b.len());
    let f = |i: int| p[i].times(eq_weight(a + b, i));
    sums::lemma_sum_blocks(kk, t, f);
    let blocks = |k: int| sums::sum(t, |j: int| f(k * t + j));
    let target = |k: int|
        eq_weight(a, k).times(
            sums::sum(t, |j: int| p[k * pow2(b.len()) + j].times(eq_weight(b, j))),
        );
    assert forall|k: int| 0 <= k < kk implies #[trigger] blocks(k) == target(k) by {
        let wa = eq_weight(a, k);
        let inner = |j: int| p[k * pow2(b.len()) + j].times(eq_weight(b, j));
        let scaled = |j: int| wa.times(inner(j));
        let fk = |j: int| f(k * t + j);
        assert forall|j: int| 0 <= j < t implies #[trigger] fk(j) == scaled(j) by {
            lemma_eq_weight_concat(a, b, k, j);
            field::lemma_times_swap(p[k * t + j], wa, eq_weight(b, j));
        }
        sums::lemma_sum_ext(t, fk, scaled);
        sums::lemma_sum_scale(t, wa, inner);
    }
    sums::lemma_sum_ext(kk, blocks, target);
}

/// The multilinear extension of a tensor product is the product of the extensions.
pub proof fn lemma_mle_tensor<F: Field>(p: Seq<F>, q: Seq<F>, a: Seq<F>, b: Seq<F>)
    requires
        p.len() == pow2(a.len()),
        q.len() == pow2(b.len()),
    ensures
        mle(tensor(p, q), a + b) == mle(p, a).times(mle(q, b)),
{
    let s = tensor(p, q);
    let kk = p.len() as int;
    let t = q.len() as int;
    vstd::arithmetic::power2::lemma_pow2_pos(b.len());
    lemma_mle_matrix(s, a, b);
    let m = mle(q, b);
    let lhs = |k: int|
        eq_weight(a, k).times(
            sums::sum(
                pow2(b.len()) as int,
                |j: int| s[k * pow2(b.len()) + j].times(eq_weight(b, j)),
            ),
        );
    let rhs = |k: int| p[k].times(eq_weight(a, k)).times(m);
    assert forall|k: int| 0 <= k < kk implies #[trigger] lhs(k) == rhs(k) by {
        let inner = |j: int| s[k * pow2(b.len()) + j].times(eq_weight(b, j));
        let base = |j: int| q[j].times(eq_weight(b, j));
        let scaled = |j: int| p[k].times(base(j));
        assert forall|j: int| 0 <= j < t implies #[trigger] inner(j) == scaled(j) by {
            lemma_block_index(k, t, j);
            assert(k * t + j < kk * t) by (nonlinear_arith)
                requires
                    0 <= j < t,
                    0 <= k < kk,
            ;
            F::law_times_assoc(p[k], q[j], eq_weight(b, j));
        }
        sums::lemma_sum_ext(t, inner, scaled);
        sums::lemma_sum_scale(t, p[k], base);
        field::lemma_times_swap(eq_weight(a, k), p[k], m);
        F::law_times_assoc(p[k], eq_weight(a, k), m);
    }
    sums::lemma_sum_ext(kk, lhs, rhs);
    sums::lemma_sum_scale_right(kk, |k: int| p[k].times(eq_weight(a, k)), m);
    let rhs2 = |k: int| (|k: int| p[k].times(eq_weight(a, k)))(k).times(m);
    sums::lemma_sum_ext(kk, rhs, rhs2);
}

/// The extension of a sum of columns is the sum of the extensions.
pub proof fn lemma_mle_sum<F: Field>(n: nat, count: int, f: spec_fn(int, int) -> F, r: Seq<F>)
    ensures
        mle(Seq::new(n, |x: int| sums::sum(count, |s: int| f(s, x))), r) == sums::sum(
            count,
            |s: int| mle(Seq::new(n, |x: int| f(s, x)), r),
        ),
{
    let p = Seq::new(n, |x: int| sums::sum(count, |s: int| f(s, x)));
    let cell = |x: int, s: int| f(s, x).times(eq_weight(r, x));
    let lhs = |x: int| p[x].times(eq_weight(r, x));
    let rows = |x: int| sums::sum(count, |s: int| cell(x, s));
    assert forall|x: int| 0 <= x < n implies #[trigger] lhs(x) == rows(x) by {
        let g = |s: int| f(s, x);
        sums::lemma_sum_scale_right(count, g, eq_weight(r, x));
        sums::lemma_sum_ext(
            count,
            |s: int| g(s).times(eq_weight(r, x)),
            |s: int| cell(x, s),
        );
    }
    sums::lemma_sum_ext(n as int, lhs, rows);
    sums::lemma_sum_swap(n as int, count, cell);
    let cols = |s: int| sums::sum(n as int, |x: int| cell(x, s));
    let target = |s: int| mle(Seq::new(n, |x: int| f(s, x)), r);
    assert forall|s: int| 0 <= s < count implies #[trigger] cols(s) == target(s) by {
        let q = Seq::new(n, |x: int| f(s, x));
        sums::lemma_sum_ext(
            n as int,
            |x: int| cell(x, s),
            |x: int| q[x].times(eq_weight(r, x)),
        );
    }
    sums::lemma_sum_ext(count, cols, target);
}

/// A column over an address digit and a cycle, repeated over `outer` digits above and `inner`
/// digits below the address digit.
pub open spec fn spread<F: Field>(p: Seq<F>, outer: int, digit: int, inner: int, t: int) -> Seq<F> {
    Seq::new(
        (outer * digit * inner * t) as nat,
        |x: int| p[((x / t) / inner % digit) * t + x % t],
    )
}

/// The extension of a spread column ignores the coordinates of the other digits.
pub proof fn lemma_mle_spread<F: Field>(
    p: Seq<F>,
    yo: Seq<F>,
    yd: Seq<F>,
    yi: Seq<F>,
    yt: Seq<F>,
)
    requires
        p.len() == pow2(yd.len()) * pow2(yt.len()),
        field::all_valid(p),
    ensures
        mle(
            spread(
                p,
                pow2(yo.len()) as int,
                pow2(yd.len()) as int,
                pow2(yi.len()) as int,
                pow2(yt.len()) as int,
            ),
            yo + yd + yi + yt,
        ) == mle(p, yd + yt),
{
    let (no, nd, ni, nt) = (
        pow2(yo.len()) as int,
        pow2(yd.len()) as int,
        pow2(yi.len()) as int,
        pow2(yt.len()) as int,
    );
    vstd::arithmetic::power2::lemma_pow2_pos(yo.len());
    vstd::arithmetic::power2::lemma_pow2_pos(yd.len());
    vstd::arithmetic::power2::lemma_pow2_pos(yi.len());
    vstd::arithmetic::power2::lemma_pow2_pos(yt.len());
    lemma_pow2_concat(yi.len(), yt.len());
    lemma_pow2_concat(yd.len(), yi.len() + yt.len());
    lemma_pow2_concat(yo.len(), yd.len() + yi.len() + yt.len());
    let rest = yd + yi + yt;
    let low = ni * nt;
    let block = nd * low;
    assert(nd * (ni * nt) == block);
    // the column of one outer block
    let q = Seq::new(block as nat, |x: int| p[((x / low) % nd) * nt + x % nt]);
    let s = spread(p, no, nd, ni, nt);
    let y = yo + yd + yi + yt;
    assert(y =~= yo + rest);
    assert(y.skip(yo.len() as int) =~= rest);
    assert(block > 0 && low > 0) by (nonlinear_arith)
        requires
            block == nd * low,
            low == ni * nt,
            ni > 0,
            nt > 0,
            nd > 0,
    ;
    assert(no * nd * ni * nt == no * block) by (nonlinear_arith)
        requires
            block == nd * low,
            low == ni * nt,
    ;
    assert(s =~= broadcast_column(q, pow2(y.len()))) by {
        assert forall|x: int| 0 <= x < s.len() implies s[x] == q[x % block] by {
            lemma_digit_of_block(x, nd, ni, nt);
            vstd::arithmetic::div_mod::lemma_mod_bound(x, block);
        }
    }
    assert(field::all_valid(q)) by {
        assert forall|x: int| 0 <= x < q.len() implies (#[trigger] q[x]).valid() by {
            lemma_cell_in_range((x / low) % nd, x % nt, nd, nt);
            assert(p[((x / low) % nd) * nt + x % nt].valid());
        }
    }
    lemma_mle_broadcast(q, y, yo.len());
    // one block: digit-major over the inner digits and the cycle
    assert(rest =~= yd + (yi + yt));
    lemma_mle_matrix(q, yd, yi + yt);
    lemma_mle_matrix(p, yd, yt);
    let lhs = |k: int|
        eq_weight(yd, k).times(
            sums::sum(
                pow2((yi + yt).len()) as int,
                |j: int| q[k * pow2((yi + yt).len()) + j].times(eq_weight(yi + yt, j)),
            ),
        );
    let rhs = |k: int|
        eq_weight(yd, k).times(
            sums::sum(
                pow2(yt.len()) as int,
                |j: int| p[k * pow2(yt.len()) + j].times(eq_weight(yt, j)),
            ),
        );
    assert forall|k: int| 0 <= k < nd implies #[trigger] lhs(k) == rhs(k) by {
        let row = Seq::new(nt as nat, |j: int| p[k * nt + j]);
        assert(field::all_valid(row)) by {
            assert forall|j: int| 0 <= j < row.len() implies (#[trigger] row[j]).valid() by {
                lemma_cell_in_range(k, j, nd, nt);
                assert(p[k * nt + j].valid());
            }
        }
        let yy = yi + yt;
        assert(yy.skip(yi.len() as int) =~= yt);
        lemma_mle_broadcast(row, yy, yi.len());
        let wide = broadcast_column(row, pow2(yy.len()));
        assert(pow2(yy.len()) == low);
        let inner = |j: int| q[k * pow2(yy.len()) + j].times(eq_weight(yy, j));
        let spread_row = |j: int| wide[j].times(eq_weight(yy, j));
        assert forall|j: int| 0 <= j < low implies #[trigger] inner(j) == spread_row(j) by {
            lemma_block_index(k, low, j);
            lemma_cell_in_range(k, j, nd, low);
            assert((k * low + j) / low % nd == k) by {
                vstd::arithmetic::div_mod::lemma_small_mod(k as nat, nd as nat);
            }
            assert((k * low + j) % nt == j % nt) by {
                assert(k * low + j == (k * ni) * nt + j) by (nonlinear_arith)
                    requires
                        low == ni * nt,
                ;
                vstd::arithmetic::div_mod::lemma_mod_multiples_vanish(k * ni, j, nt);
                assert(nt * (k * ni) + j == (k * ni) * nt + j) by (nonlinear_arith);
            }
            vstd::arithmetic::div_mod::lemma_mod_bound(j, nt);
        }
        sums::lemma_sum_ext(low, inner, spread_row);
        sums::lemma_sum_ext(
            nt,
            |j: int| row[j].times(eq_weight(yt, j)),
            |j: int| p[k * pow2(yt.len()) + j].times(eq_weight(yt, j)),
        );
    }
    sums::lemma_sum_ext(nd, lhs, rhs);
}

pub proof fn lemma_cell_in_range(k: int, j: int, n: int, t: int)
    requires
        0 <= k < n,
        0 <= j < t,
    ensures
        0 <= k * t + j < n * t,
{
    assert(0 <= k * t + j < n * t) by (nonlinear_arith)
        requires
            0 <= k < n,
            0 <= j < t,
    ;
}

/// The digit and the cycle of an index are those of its block.
proof fn lemma_digit_of_block(x: int, nd: int, ni: int, nt: int)
    requires
        nd > 0,
        ni > 0,
        nt > 0,
        x >= 0,
    ensures
        ((x / nt) / ni) % nd == ((x % (nd * (ni * nt))) / (ni * nt)) % nd,
        x % nt == (x % (nd * (ni * nt))) % nt,
{
    let low = ni * nt;
    let block = nd * low;
    assert(low > 0 && block > 0) by (nonlinear_arith)
        requires
            low == ni * nt,
            block == nd * low,
            nd > 0,
            ni > 0,
            nt > 0,
    ;
    vstd::arithmetic::div_mod::lemma_div_denominator(x, nt, ni);
    assert(nt * ni == low) by (nonlinear_arith)
        requires
            low == ni * nt,
    ;
    assert((x / nt) / ni == x / low);
    // x = block q + r, so x / low = nd q + r / low
    let q = x / block;
    let r = x % block;
    vstd::arithmetic::div_mod::lemma_fundamental_div_mod(x, block);
    vstd::arithmetic::div_mod::lemma_mod_bound(x, block);
    assert(x == (nd * q) * low + r) by (nonlinear_arith)
        requires
            x == block * q + r,
            block == nd * low,
    ;
    vstd::arithmetic::div_mod::lemma_fundamental_div_mod(r, low);
    vstd::arithmetic::div_mod::lemma_mod_bound(r, low);
    assert(x == (nd * q + r / low) * low + r % low) by (nonlinear_arith)
        requires
            x == (nd * q) * low + r,
            r == low * (r / low) + r % low,
    ;
    vstd::arithmetic::div_mod::lemma_fundamental_div_mod_converse(
        x,
        low,
        nd * q + r / low,
        r % low,
    );
    vstd::arithmetic::div_mod::lemma_mod_multiples_vanish(q, r / low, nd);
    assert(x == nt * ((nd * ni) * q) + r) by (nonlinear_arith)
        requires
            x == block * q + r,
            block == nd * low,
            low == ni * nt,
    ;
    vstd::arithmetic::div_mod::lemma_mod_multiples_vanish((nd * ni) * q, r, nt);
}

/// Every evaluation of a column, repeated `m` times in a row.
pub open spec fn stretch<F: Field>(p: Seq<F>, m: nat) -> Seq<F> {
    Seq::new(p.len() * m, |x: int| p[x / (m as int)])
}

/// The extension of a stretched column ignores the last coordinates.
pub proof fn lemma_mle_stretch<F: Field>(p: Seq<F>, a: Seq<F>, b: Seq<F>)
    requires
        p.len() == pow2(a.len()),
        field::all_valid(p),
    ensures
        mle(stretch(p, pow2(b.len())), a + b) == mle(p, a),
{
    let m = pow2(b.len());
    let ones = Seq::new(m, |i: int| F::of_int(1));
    vstd::arithmetic::power2::lemma_pow2_pos(b.len());
    assert(tensor(p, ones) =~= stretch(p, m)) by {
        assert forall|x: int| 0 <= x < p.len() * m implies tensor(p, ones)[x] == stretch(p, m)[x] by {
            lemma_quotient_in_range(x, p.len() as int, m as int);
            assert(p[x / (m as int)].valid());
            F::law_times_one(p[x / (m as int)]);
        }
    }
    lemma_mle_tensor(p, ones, a, b);
    F::law_of_int_valid(1);
    lemma_mle_constant(F::of_int(1), ones, b);
    lemma_mle_valid(p, a);
    F::law_times_one(mle(p, a));
}

/// The quotient and the remainder of an index into `k` blocks of `t`.
pub proof fn lemma_quotient_in_range(x: int, k: int, t: int)
    requires
        0 <= x < k * t,
        t > 0,
    ensures
        0 <= x / t < k,
        0 <= x % t < t,
        x == (x / t) * t + x % t,
{
    vstd::arithmetic::div_mod::lemma_fundamental_div_mod(x, t);
    vstd::arithmetic::div_mod::lemma_mod_bound(x, t);
    vstd::arithmetic::div_mod::lemma_div_pos_is_pos(x, t);
    let q = x / t;
    assert(t * q == q * t) by (nonlinear_arith);
    assert(q < k) by (nonlinear_arith)
        requires
            q * t <= x,
            x < k * t,
            t > 0,
    ;
}

/// The equality table sums to one.
pub proof fn lemma_eq_sum<F: Field>(r: Seq<F>)
    ensures
        sums::sum(pow2(r.len()) as int, |i: int| eq_weight(r, i)) == F::of_int(1),
{
    let n = pow2(r.len()) as int;
    let ones = Seq::new(pow2(r.len()), |i: int| F::of_int(1));
    let f = |i: int| eq_weight(r, i);
    let g = |i: int| ones[i].times(eq_weight(r, i));
    F::law_of_int_valid(1);
    lemma_mle_constant(F::of_int(1), ones, r);
    assert forall|i: int| 0 <= i < n implies #[trigger] f(i) == g(i) by {
        lemma_eq_weight_valid(r, i);
        field::lemma_one_times(eq_weight(r, i));
    }
    sums::lemma_sum_ext(n, f, g);
}

/// The table of `eq(a, .) + g eq(b, .)`.
pub open spec fn eq_pair_table<F: Field>(a: Seq<F>, b: Seq<F>, g: F) -> Seq<F> {
    Seq::new(pow2(a.len()), |i: int| eq_table(a)[i].plus(g.times(eq_table(b)[i])))
}

/// Summing a column against `eq(a, .) + g eq(b, .)` batches its values at the two points.
pub proof fn lemma_sum_eq_pair<F: Field>(p: Seq<F>, a: Seq<F>, b: Seq<F>, g: F)
    requires
        a.len() == b.len(),
        p.len() == pow2(a.len()),
    ensures
        sums::sum(p.len() as int, |i: int| p[i].times(eq_pair_table(a, b, g)[i])) == mle(p, a).plus(
            g.times(mle(p, b)),
        ),
{
    let n = p.len() as int;
    let f = |i: int| p[i].times(eq_pair_table(a, b, g)[i]);
    let fa = |i: int| p[i].times(eq_weight(a, i));
    let fb = |i: int| p[i].times(eq_weight(b, i));
    let gb = |i: int| g.times(fb(i));
    let h = |i: int| fa(i).plus(gb(i));
    assert forall|i: int| 0 <= i < n implies #[trigger] f(i) == h(i) by {
        F::law_distrib(p[i], eq_weight(a, i), g.times(eq_weight(b, i)));
        field::lemma_times_swap(p[i], g, eq_weight(b, i));
    }
    sums::lemma_sum_ext(n, f, h);
    sums::lemma_sum_plus(n, fa, gb);
    sums::lemma_sum_scale(n, g, fb);
}

/// The multilinear extension of `eq(a, .) + g eq(b, .)`.
pub proof fn lemma_mle_eq_pair<F: Field>(a: Seq<F>, b: Seq<F>, g: F, y: Seq<F>)
    requires
        a.len() == b.len(),
        a.len() == y.len(),
    ensures
        mle(eq_pair_table(a, b, g), y) == eq_mle(y, a).plus(g.times(eq_mle(y, b))),
        field::all_valid(eq_pair_table(a, b, g)),
{
    let q = Seq::new(pow2(a.len()), |i: int| g.times(eq_table(b)[i]));
    lemma_mle_scale(g, eq_table(b), q, y);
    lemma_mle_plus(eq_table(a), q, eq_pair_table(a, b, g), y);
    lemma_mle_eq_table(a, y);
    lemma_mle_eq_table(b, y);
    lemma_eq_mle_comm(a, y);
    lemma_eq_mle_comm(b, y);
    assert forall|i: int| 0 <= i < pow2(a.len()) implies (#[trigger] eq_pair_table(
        a,
        b,
        g,
    )[i]).valid() by {
        F::law_valid(eq_table(a)[i], g.times(eq_table(b)[i]));
    }
}

pub proof fn lemma_eq_table_valid<F: Field>(r: Seq<F>)
    ensures
        field::all_valid(eq_table(r)),
        eq_table(r).len() == pow2(r.len()),
        pow2(r.len()) > 0,
{
    vstd::arithmetic::power2::lemma_pow2_pos(r.len());
    assert forall|i: int| 0 <= i < eq_table(r).len() implies (#[trigger] eq_table(r)[i]).valid() by {
        lemma_eq_weight_valid(r, i);
    }
}

pub proof fn lemma_lt_table_valid<F: Field>(r: Seq<F>)
    ensures
        field::all_valid(lt_table(r)),
        lt_table(r).len() == pow2(r.len()),
        pow2(r.len()) > 0,
{
    vstd::arithmetic::power2::lemma_pow2_pos(r.len());
    assert forall|i: int| 0 <= i < lt_table(r).len() implies (#[trigger] lt_table(r)[i]).valid() by {
        if r.len() == 0 {
            F::law_of_int_valid(0);
        } else {
            F::law_valid(
                lt_weight(r.drop_last(), i / 2),
                eq_weight(r.drop_last(), i / 2).times(
                    if i % 2 == 1 {
                        F::of_int(0)
                    } else {
                        r.last()
                    },
                ),
            );
        }
    }
}

pub proof fn lemma_eq_plus_one_table_valid<F: Field>(r: Seq<F>)
    ensures
        field::all_valid(eq_plus_one_table(r)),
        eq_plus_one_table(r).len() == pow2(r.len()),
{
    assert forall|i: int| 0 <= i < eq_plus_one_table(r).len() implies (
    #[trigger] eq_plus_one_table(r)[i]).valid() by {
        if r.len() == 0 {
            F::law_of_int_valid(0);
        } else if i % 2 == 1 {
            F::law_valid(eq_weight(r.drop_last(), i / 2), complement(r.last()));
        } else {
            F::law_valid(eq_plus_one_weight(r.drop_last(), i / 2), r.last());
        }
    }
}

/// The successor table is the equality table shifted by one index.
pub proof fn lemma_eq_plus_one_shifts<F: Field>(r: Seq<F>, i: int)
    requires
        0 <= i < pow2(r.len()),
    ensures
        eq_plus_one_weight(r, i) == (if i == 0 {
            F::of_int(0)
        } else {
            eq_weight(r, i - 1)
        }),
    decreases r.len(),
{
    lemma_pow2_zero();
    if r.len() > 0 {
        lemma_pow2_step(r.len());
        let r1 = r.drop_last();
        if i % 2 == 1 {
            assert((i - 1) / 2 == i / 2 && (i - 1) % 2 == 0);
        } else {
            lemma_eq_plus_one_shifts(r1, i / 2);
            if i == 0 {
                field::lemma_zero_times(r.last());
            } else {
                assert((i - 1) / 2 == i / 2 - 1 && (i - 1) % 2 == 1);
            }
        }
    }
}

/// The table of the equality polynomial at a point.
pub fn eq_evals<F: Field>(r: &[F]) -> (t: Vec<F>)
    requires
        pow2(r@.len()) <= usize::MAX,
    ensures
        t@ == eq_table(r@),
{
    let one: F = field::one();
    let mut t: Vec<F> = Vec::new();
    t.push(one);
    proof {
        lemma_pow2_zero();
        assert(r@.take(0) =~= Seq::<F>::empty());
        assert(t@ =~= eq_table(r@.take(0)));
    }
    let n: usize = r.len();
    for k in 0..n
        invariant
            n == r@.len(),
            one == F::of_int(1),
            pow2(r@.len()) <= usize::MAX,
            t@ == eq_table(r@.take(k as int)),
    {
        let ghost prefix = r@.take(k as int);
        let ghost next_prefix = r@.take(k + 1);
        let hi: F = r[k];
        let lo: F = one.sub(hi);
        let size: usize = t.len();
        let mut next: Vec<F> = Vec::new();
        proof {
            assert(next_prefix.drop_last() =~= prefix);
            assert(next_prefix.last() == hi);
            lemma_pow2_step((k + 1) as nat);
        }
        for i in 0..size
            invariant
                size == t@.len(),
                t@ == eq_table(prefix),
                next_prefix.len() > 0,
                next_prefix.drop_last() == prefix,
                next_prefix.last() == hi,
                lo == complement(hi),
                next@.len() == 2 * i,
                forall|m: int| 0 <= m < 2 * i ==> #[trigger] next@[m] == eq_weight(next_prefix, m),
        {
            assert((2 * i) / 2 == i as int && (2 * i) % 2 == 0);
            assert((2 * i + 1) / 2 == i as int && (2 * i + 1) % 2 == 1);
            next.push(t[i].mul(lo));
            next.push(t[i].mul(hi));
        }
        t = next;
        assert(t@ =~= eq_table(next_prefix));
    }
    proof {
        assert(r@.take(n as int) =~= r@);
    }
    t
}

/// The equality polynomial at two points.
pub fn eq_at<F: Field>(a: &[F], b: &[F]) -> (e: F)
    requires
        a@.len() == b@.len(),
    ensures
        e == eq_mle(a@, b@),
{
    let one: F = field::one();
    let mut e: F = field::one();
    let n: usize = a.len();
    proof {
        assert(a@.take(0) =~= Seq::<F>::empty());
    }
    for k in 0..n
        invariant
            n == a@.len(),
            a@.len() == b@.len(),
            one == F::of_int(1),
            e == eq_mle(a@.take(k as int), b@.take(k as int)),
    {
        proof {
            assert(a@.take(k + 1).drop_last() =~= a@.take(k as int));
            assert(b@.take(k + 1).drop_last() =~= b@.take(k as int));
        }
        let both: F = a[k].mul(b[k]);
        let neither: F = one.sub(a[k]).mul(one.sub(b[k]));
        e = e.mul(both.add(neither));
    }
    proof {
        assert(a@.take(n as int) =~= a@);
        assert(b@.take(n as int) =~= b@);
    }
    e
}

/// The table of the less-than polynomial at a point.
pub fn lt_evals<F: Field>(r: &[F]) -> (t: Vec<F>)
    requires
        pow2(r@.len()) <= usize::MAX,
    ensures
        t@ == lt_table(r@),
{
    let zero: F = field::zero();
    let one: F = field::one();
    let mut t: Vec<F> = Vec::new();
    let mut e: Vec<F> = Vec::new();
    t.push(zero);
    e.push(one);
    proof {
        lemma_pow2_zero();
        assert(r@.take(0) =~= Seq::<F>::empty());
        assert(t@ =~= lt_table(r@.take(0)));
        assert(e@ =~= eq_table(r@.take(0)));
    }
    let n: usize = r.len();
    for k in 0..n
        invariant
            n == r@.len(),
            zero == F::of_int(0),
            one == F::of_int(1),
            pow2(r@.len()) <= usize::MAX,
            t@ == lt_table(r@.take(k as int)),
            e@ == eq_table(r@.take(k as int)),
    {
        let ghost prefix = r@.take(k as int);
        let ghost next_prefix = r@.take(k + 1);
        let hi: F = r[k];
        let lo: F = one.sub(hi);
        let size: usize = t.len();
        let mut next: Vec<F> = Vec::new();
        let mut next_e: Vec<F> = Vec::new();
        proof {
            assert(next_prefix.drop_last() =~= prefix);
            assert(next_prefix.last() == hi);
            lemma_pow2_step((k + 1) as nat);
        }
        for i in 0..size
            invariant
                size == t@.len(),
                e@.len() == t@.len(),
                zero == F::of_int(0),
                t@ == lt_table(prefix),
                e@ == eq_table(prefix),
                next_prefix.len() > 0,
                next_prefix.drop_last() == prefix,
                next_prefix.last() == hi,
                lo == complement(hi),
                next@.len() == 2 * i,
                next_e@.len() == 2 * i,
                forall|m: int| 0 <= m < 2 * i ==> #[trigger] next@[m] == lt_weight(next_prefix, m),
                forall|m: int|
                    0 <= m < 2 * i ==> #[trigger] next_e@[m] == eq_weight(next_prefix, m),
        {
            assert((2 * i) / 2 == i as int && (2 * i) % 2 == 0);
            assert((2 * i + 1) / 2 == i as int && (2 * i + 1) % 2 == 1);
            next.push(t[i].add(e[i].mul(hi)));
            next.push(t[i].add(e[i].mul(zero)));
            next_e.push(e[i].mul(lo));
            next_e.push(e[i].mul(hi));
        }
        t = next;
        e = next_e;
        assert(t@ =~= lt_table(next_prefix));
        assert(e@ =~= eq_table(next_prefix));
    }
    proof {
        assert(r@.take(n as int) =~= r@);
    }
    t
}

/// The less-than polynomial at two points.
pub fn lt_at<F: Field>(x: &[F], r: &[F]) -> (v: F)
    requires
        x@.len() == r@.len(),
    ensures
        v == lt_mle(x@, r@),
{
    let one: F = field::one();
    let mut v: F = field::zero();
    let mut e: F = field::one();
    let n: usize = x.len();
    proof {
        assert(x@.take(0) =~= Seq::<F>::empty());
        assert(r@.take(0) =~= Seq::<F>::empty());
    }
    for k in 0..n
        invariant
            n == x@.len(),
            x@.len() == r@.len(),
            one == F::of_int(1),
            v == lt_mle(x@.take(k as int), r@.take(k as int)),
            e == eq_mle(r@.take(k as int), x@.take(k as int)),
    {
        proof {
            assert(x@.take(k + 1).drop_last() =~= x@.take(k as int));
            assert(r@.take(k + 1).drop_last() =~= r@.take(k as int));
        }
        let below: F = one.sub(x[k]).mul(r[k]);
        v = v.add(e.mul(below));
        let both: F = r[k].mul(x[k]);
        let neither: F = one.sub(r[k]).mul(one.sub(x[k]));
        e = e.mul(both.add(neither));
    }
    proof {
        assert(x@.take(n as int) =~= x@);
        assert(r@.take(n as int) =~= r@);
    }
    v
}

/// The table of the successor polynomial at a point.
pub fn eq_plus_one_evals<F: Field>(r: &[F]) -> (t: Vec<F>)
    requires
        pow2(r@.len()) <= usize::MAX,
    ensures
        t@ == eq_plus_one_table(r@),
{
    let zero: F = field::zero();
    let one: F = field::one();
    let mut t: Vec<F> = Vec::new();
    let mut e: Vec<F> = Vec::new();
    t.push(zero);
    e.push(one);
    proof {
        lemma_pow2_zero();
        assert(r@.take(0) =~= Seq::<F>::empty());
        assert(t@ =~= eq_plus_one_table(r@.take(0)));
        assert(e@ =~= eq_table(r@.take(0)));
    }
    let n: usize = r.len();
    for k in 0..n
        invariant
            n == r@.len(),
            one == F::of_int(1),
            pow2(r@.len()) <= usize::MAX,
            t@ == eq_plus_one_table(r@.take(k as int)),
            e@ == eq_table(r@.take(k as int)),
    {
        let ghost prefix = r@.take(k as int);
        let ghost next_prefix = r@.take(k + 1);
        let hi: F = r[k];
        let lo: F = one.sub(hi);
        let size: usize = t.len();
        let mut next: Vec<F> = Vec::new();
        let mut next_e: Vec<F> = Vec::new();
        proof {
            assert(next_prefix.drop_last() =~= prefix);
            assert(next_prefix.last() == hi);
            lemma_pow2_step((k + 1) as nat);
        }
        for i in 0..size
            invariant
                size == t@.len(),
                e@.len() == t@.len(),
                t@ == eq_plus_one_table(prefix),
                e@ == eq_table(prefix),
                next_prefix.len() > 0,
                next_prefix.drop_last() == prefix,
                next_prefix.last() == hi,
                lo == complement(hi),
                next@.len() == 2 * i,
                next_e@.len() == 2 * i,
                forall|m: int|
                    0 <= m < 2 * i ==> #[trigger] next@[m] == eq_plus_one_weight(next_prefix, m),
                forall|m: int|
                    0 <= m < 2 * i ==> #[trigger] next_e@[m] == eq_weight(next_prefix, m),
        {
            assert((2 * i) / 2 == i as int && (2 * i) % 2 == 0);
            assert((2 * i + 1) / 2 == i as int && (2 * i + 1) % 2 == 1);
            next.push(t[i].mul(hi));
            next.push(e[i].mul(lo));
            next_e.push(e[i].mul(lo));
            next_e.push(e[i].mul(hi));
        }
        t = next;
        e = next_e;
        assert(t@ =~= eq_plus_one_table(next_prefix));
        assert(e@ =~= eq_table(next_prefix));
    }
    proof {
        assert(r@.take(n as int) =~= r@);
    }
    t
}

/// The successor polynomial at two points.
pub fn eq_plus_one_at<F: Field>(r: &[F], y: &[F]) -> (v: F)
    requires
        r@.len() == y@.len(),
    ensures
        v == eq_plus_one_mle(r@, y@),
{
    let one: F = field::one();
    let mut v: F = field::zero();
    let mut e: F = field::one();
    let n: usize = r.len();
    proof {
        assert(r@.take(0) =~= Seq::<F>::empty());
        assert(y@.take(0) =~= Seq::<F>::empty());
    }
    for k in 0..n
        invariant
            n == r@.len(),
            r@.len() == y@.len(),
            one == F::of_int(1),
            v == eq_plus_one_mle(r@.take(k as int), y@.take(k as int)),
            e == eq_mle(r@.take(k as int), y@.take(k as int)),
    {
        proof {
            assert(r@.take(k + 1).drop_last() =~= r@.take(k as int));
            assert(y@.take(k + 1).drop_last() =~= y@.take(k as int));
        }
        let step: F = one.sub(r[k]).mul(y[k]);
        let carry: F = r[k].mul(one.sub(y[k]));
        v = e.mul(step).add(v.mul(carry));
        let both: F = r[k].mul(y[k]);
        let neither: F = one.sub(r[k]).mul(one.sub(y[k]));
        e = e.mul(both.add(neither));
    }
    proof {
        assert(r@.take(n as int) =~= r@);
        assert(y@.take(n as int) =~= y@);
    }
    v
}

/// The multilinear extension of a column at a point.
pub fn evaluate<F: Field>(p: &[F], r: &[F]) -> (v: F)
    requires
        p@.len() == pow2(r@.len()),
    ensures
        v == mle(p@, r@),
{
    let size: usize = p.len();
    assert(size == pow2(r@.len()));
    let eq: Vec<F> = eq_evals(r);
    let v: F = sums::inner_product(p, &eq);
    proof {
        sums::lemma_sum_ext(
            p@.len() as int,
            |i: int| p@[i].times(eq@[i]),
            |i: int| p@[i].times(eq_weight(r@, i)),
        );
    }
    v
}

/// A multilinear polynomial held by its evaluations over the hypercube.
#[derive(Debug)]
pub struct MultilinearPolynomial<F> {
    pub evals: Vec<F>,
}

impl<F: Field> View for MultilinearPolynomial<F> {
    type V = Seq<F>;

    open spec fn view(&self) -> Seq<F> {
        self.evals@
    }
}

impl<F: Field> MultilinearPolynomial<F> {
    /// The polynomial with the given evaluations.
    pub fn new(evals: Vec<F>) -> (r: Self)
        ensures
            r@ == evals@,
    {
        MultilinearPolynomial { evals }
    }

    /// Set the least significant variable to `x`.
    pub fn bind_low(&mut self, x: F)
        ensures
            final(self)@ == bind(old(self)@, x),
    {
        let half: usize = self.evals.len() / 2;
        let mut out: Vec<F> = Vec::new();
        for j in 0..half
            invariant
                half == self@.len() / 2,
                self@ == old(self)@,
                2 * half <= self.evals.len(),
                out@ == bind(old(self)@, x).take(j as int),
        {
            let a: F = self.evals[2 * j];
            let b: F = self.evals[2 * j + 1];
            out.push(a.add(x.mul(b.sub(a))));
            assert(out@ =~= bind(old(self)@, x).take(j + 1));
        }
        assert(out@ =~= bind(old(self)@, x));
        self.evals = out;
    }
}

/// The elements of a slice in reverse order.
pub fn reversed<F: Field>(xs: &[F]) -> (r: Vec<F>)
    ensures
        r@ == xs@.reverse(),
{
    let n: usize = xs.len();
    let mut out: Vec<F> = Vec::new();
    for i in 0..n
        invariant
            n == xs@.len(),
            out@ == xs@.reverse().take(i as int),
    {
        out.push(xs[n - 1 - i]);
        assert(out@ =~= xs@.reverse().take(i + 1));
    }
    assert(out@ =~= xs@.reverse());
    out
}

/// One slice followed by another.
pub fn concat<F: Field>(a: &[F], b: &[F]) -> (r: Vec<F>)
    ensures
        r@ == a@ + b@,
{
    let mut out: Vec<F> = Vec::new();
    let n: usize = a.len();
    let m: usize = b.len();
    for i in 0..n
        invariant
            n == a@.len(),
            out@ == a@.take(i as int),
    {
        out.push(a[i]);
        assert(out@ =~= a@.take(i + 1));
    }
    assert(out@ =~= a@ + b@.take(0));
    for i in 0..m
        invariant
            m == b@.len(),
            out@ == a@ + b@.take(i as int),
    {
        out.push(b[i]);
        assert(out@ =~= a@ + b@.take(i + 1));
    }
    assert(out@ =~= a@ + b@);
    out
}

/// The elements of a slice from `from` up to `to`.
pub fn range<F: Field>(xs: &[F], from: usize, to: usize) -> (r: Vec<F>)
    requires
        from <= to <= xs@.len(),
    ensures
        r@ == xs@.subrange(from as int, to as int),
{
    let mut out: Vec<F> = Vec::new();
    for i in from..to
        invariant
            from <= to <= xs@.len(),
            out@ == xs@.subrange(from as int, i as int),
    {
        out.push(xs[i]);
        assert(out@ =~= xs@.subrange(from as int, i + 1));
    }
    out
}

/// A copy of a slice.
pub fn copied<F: Field>(xs: &[F]) -> (r: Vec<F>)
    ensures
        r@ == xs@,
{
    let r: Vec<F> = range(xs, 0, xs.len());
    assert(r@ =~= xs@);
    r
}

/// A column repeated to `size` evaluations.
pub fn broadcast<F: Field>(p: &[F], size: usize) -> (r: Vec<F>)
    requires
        p@.len() > 0,
    ensures
        r@ == broadcast_column(p@, size as nat),
{
    let n: usize = p.len();
    let mut out: Vec<F> = Vec::new();
    for i in 0..size
        invariant
            n == p@.len(),
            n > 0,
            out@ == broadcast_column(p@, size as nat).take(i as int),
    {
        out.push(p[i % n]);
        assert(out@ =~= broadcast_column(p@, size as nat).take(i + 1));
    }
    assert(out@ =~= broadcast_column(p@, size as nat));
    out
}

/// Repeat every evaluation of a column `m` times in a row.
pub fn stretched<F: Field>(p: &[F], m: usize) -> (r: Vec<F>)
    requires
        m > 0,
        p@.len() * m <= usize::MAX,
    ensures
        r@ == stretch(p@, m as nat),
{
    let len: usize = p.len();
    let size: usize = len * m;
    let mut out: Vec<F> = Vec::new();
    for x in 0..size
        invariant
            m > 0,
            len == p@.len(),
            size == len * m,
            out@ == stretch(p@, m as nat).take(x as int),
    {
        proof {
            lemma_quotient_in_range(x as int, len as int, m as int);
        }
        out.push(p[x / m]);
        assert(out@ =~= stretch(p@, m as nat).take(x + 1));
    }
    assert(out@ =~= stretch(p@, m as nat));
    out
}

/// `2^n`.
pub fn power_of_two(n: usize) -> (r: usize)
    requires
        pow2(n as nat) <= usize::MAX,
    ensures
        r == pow2(n as nat),
{
    let mut out: usize = 1;
    proof {
        lemma_pow2_zero();
    }
    for i in 0..n
        invariant
            pow2(n as nat) <= usize::MAX,
            out == pow2(i as nat),
    {
        proof {
            lemma_pow2_step((i + 1) as nat);
            lemma_pow2_monotone((i + 1) as nat, n as nat);
        }
        out = out * 2;
    }
    out
}

pub proof fn lemma_pow2_monotone(a: nat, b: nat)
    requires
        a <= b,
    ensures
        pow2(a) <= pow2(b),
{
    if a < b {
        vstd::arithmetic::power2::lemma_pow2_strictly_increases(a, b);
    }
}

pub proof fn lemma_pow2_exceeds(n: nat)
    ensures
        n < pow2(n),
    decreases n,
{
    lemma_pow2_zero();
    if n > 0 {
        lemma_pow2_step(n);
        lemma_pow2_exceeds((n - 1) as nat);
    }
}

pub proof fn lemma_row_bound(i: int, n: int, m: int)
    requires
        0 <= i < n,
        m >= 0,
    ensures
        0 <= i * m,
        i * m + m <= n * m,
{
    assert(0 <= i * m && i * m + m <= n * m) by (nonlinear_arith)
        requires
            0 <= i < n,
            m >= 0,
    ;
}

pub proof fn lemma_factors(a: nat, b: nat)
    requires
        a > 0,
        b > 0,
    ensures
        a <= a * b,
        b <= a * b,
{
    assert(a <= a * b && b <= a * b) by (nonlinear_arith)
        requires
            a > 0,
            b > 0,
    ;
}

/// The contents of a sequence of vectors.
pub open spec fn contents<T>(v: Seq<Vec<T>>) -> Seq<Seq<T>> {
    Seq::new(v.len(), |i: int| v[i]@)
}

/// A vector of `n` zeros.
pub fn zeros<F: Field>(n: usize) -> (r: Vec<F>)
    ensures
        r@ == Seq::new(n as nat, |i: int| F::of_int(0)),
{
    let mut out: Vec<F> = Vec::new();
    for i in 0..n
        invariant
            out@ == Seq::new(i as nat, |j: int| F::of_int(0)),
    {
        out.push(field::zero());
        assert(out@ =~= Seq::new((i + 1) as nat, |j: int| F::of_int(0)));
    }
    out
}

/// Two entries of a bound column are equal if the blocks they are bound from are.
pub proof fn lemma_bind_all_blocks<F: Field>(p: Seq<F>, xs: Seq<F>, n: nat, u: int, v: int)
    requires
        p.len() == n * pow2(xs.len()),
        0 <= u < n,
        0 <= v < n,
        forall|low: int|
            0 <= low < pow2(xs.len()) ==> #[trigger] p[u * pow2(xs.len()) + low] == p[v * pow2(
                xs.len(),
            ) + low],
    ensures
        bind_all(p, xs)[u] == bind_all(p, xs)[v],
    decreases xs.len(),
{
    let m = xs.len();
    let size = pow2(m) as int;
    if m == 0 {
        lemma_pow2_zero();
        assert(p[u * size + 0] == p[v * size + 0]);
        assert(u * size == u && v * size == v) by (nonlinear_arith)
            requires
                size == 1,
        ;
    } else {
        let half = pow2((m - 1) as nat) as int;
        lemma_pow2_step(m);
        let q = bind(p, xs[0]);
        let rest = xs.skip(1);
        assert(n * size == 2 * (n * half)) by (nonlinear_arith)
            requires
                size == 2 * half,
        ;
        assert(q.len() == n * half);
        assert forall|low: int| 0 <= low < half implies #[trigger] q[u * half + low] == q[v * half
            + low] by {
            assert(2 * (u * half + low) == u * size + 2 * low && 2 * (v * half + low) == v * size
                + 2 * low) by (nonlinear_arith)
                requires
                    size == 2 * half,
            ;
            lemma_row_bound(u, n as int, half);
            lemma_row_bound(v, n as int, half);
            assert(p[u * size + 2 * low] == p[v * size + 2 * low]);
            assert(p[u * size + (2 * low + 1)] == p[v * size + (2 * low + 1)]);
        }
        lemma_bind_all_blocks(q, rest, n, u, v);
    }
}

} // verus!
