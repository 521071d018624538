//! The operands of an interleaved lookup index, as polynomials in its bits.
//!
//! An index point of `2 m` coordinates alternates the bits of the two operands, the most significant
//! first. The operand on a side is the sum over `i < m` of its `i`-th coordinate times `2^(m-1-i)`.

use crate::field;
use crate::field::Field;
use crate::framework::poly;
use crate::framework::sums;
use vstd::arithmetic::power2::pow2;
use vstd::prelude::*;

verus! {

/// Which operand to extract.
#[derive(Clone, Copy, Debug, PartialEq, Eq, Structural)]
pub enum OperandSide {
    Left,
    Right,
}

/// The operand polynomial over an index point of `num_vars` coordinates.
#[derive(Clone, Copy, Debug)]
pub struct OperandPolynomial {
    num_vars: usize,
    side: OperandSide,
}

/// The number whose bits, most significant first, are the coordinates `r[start]`,
/// `r[start + step]`, and so on, `m` in all.
pub open spec fn strided_value<F: Field>(r: Seq<F>, start: int, step: int, m: int) -> F {
    sums::sum(m, |i: int| r[start + step * i].times(F::of_int(pow2((m - 1 - i) as nat) as int)))
}

/// The first `n` powers of two.
pub fn powers_of_two<F: Field>(n: usize) -> (r: Vec<F>)
    ensures
        r@ == Seq::new(n as nat, |i: int| F::of_int(pow2(i as nat) as int)),
{
    let two: F = F::from_u64(2);
    let mut p: F = field::one();
    let mut out: Vec<F> = Vec::new();
    proof {
        poly::lemma_pow2_zero();
    }
    for i in 0..n
        invariant
            two == F::of_int(2),
            p == F::of_int(pow2(i as nat) as int),
            out@ == Seq::new(i as nat, |i: int| F::of_int(pow2(i as nat) as int)),
    {
        out.push(p);
        assert(out@ =~= Seq::new((i + 1) as nat, |i: int| F::of_int(pow2(i as nat) as int)));
        proof {
            F::law_of_int_times(pow2(i as nat) as int, 2);
            poly::lemma_pow2_step((i + 1) as nat);
        }
        p = p.mul(two);
    }
    out
}

/// The number whose bits are strided coordinates.
pub fn strided_eval<F: Field>(r: &[F], start: usize, step: usize, m: usize) -> (v: F)
    requires
        m == 0 || start + step * (m - 1) < r@.len(),
        step >= 1,
    ensures
        v == strided_value(r@, start as int, step as int, m as int),
{
    let weights: Vec<F> = powers_of_two(m);
    let len: usize = r.len();
    let ghost f = |i: int|
        r@[start + step * i].times(F::of_int(pow2((m - 1 - i) as nat) as int));
    let mut acc: F = field::zero();
    let mut at: usize = start;
    assert(0 * step == 0) by (nonlinear_arith);
    for i in 0..m
        invariant
            len == r@.len(),
            m == 0 || start + step * (m - 1) < len,
            step >= 1,
            weights@ == Seq::new(m as nat, |i: int| F::of_int(pow2(i as nat) as int)),
            i < m ==> at == start + i * step,
            f == (|i: int|
                r@[start + step * i].times(F::of_int(pow2((m - 1 - i) as nat) as int))),
            acc == sums::sum(i as int, f),
    {
        assert(i * step == step * i) by (nonlinear_arith);
        assert(start + step * i <= start + step * (m - 1)) by (nonlinear_arith)
            requires
                i <= m - 1,
                step >= 1,
        ;
        acc = acc.add(r[at].mul(weights[m - 1 - i]));
        assert((i + 1) * step == step * i + step) by (nonlinear_arith);
        if i + 1 < m {
            assert(step * (i + 1) == step * i + step) by (nonlinear_arith);
            assert(start + step * (i + 1) <= start + step * (m - 1)) by (nonlinear_arith)
                requires
                    i + 1 <= m - 1,
                    step >= 1,
            ;
            at = at + step;
        }
    }
    acc
}

impl OperandPolynomial {
    /// The number of coordinates of an index point.
    pub closed spec fn vars(self) -> nat {
        self.num_vars as nat
    }

    /// The first coordinate of the operand: the right operand starts the point.
    pub closed spec fn offset(self) -> int {
        match self.side {
            OperandSide::Right => 0,
            OperandSide::Left => 1,
        }
    }

    /// The polynomial of the operand on a side of an interleaved point.
    pub fn new(num_vars: usize, side: OperandSide) -> (r: Self)
        requires
            num_vars % 2 == 0,
        ensures
            r.vars() == num_vars,
            r.offset() == (match side {
                OperandSide::Right => 0int,
                OperandSide::Left => 1int,
            }),
    {
        OperandPolynomial { num_vars, side }
    }

    /// The operand at an index point.
    pub fn evaluate<F: Field>(&self, r: &[F]) -> (v: F)
        requires
            r@.len() == self.vars(),
            self.vars() % 2 == 0,
        ensures
            v == strided_value(r@, self.offset(), 2, (self.vars() / 2) as int),
    {
        let m: usize = self.num_vars / 2;
        let offset: usize = match self.side {
            OperandSide::Right => 0,
            OperandSide::Left => 1,
        };
        strided_eval(r, offset, 2, m)
    }
}

/// The bits of a number, most significant first, as field elements.
pub open spec fn binary_point<F: Field>(x: int, n: nat) -> Seq<F> {
    Seq::new(n, |i: int| F::of_int((x / pow2((n - 1 - i) as nat) as int) % 2))
}

/// The number whose bits sit `step` positions apart in `x`, the `m` most significant ones first,
/// `low` positions being left below the last.
pub open spec fn strided_bits(x: int, low: nat, step: nat, m: nat) -> int
    decreases m,
{
    if m == 0 {
        0
    } else {
        2 * strided_bits(x, low + step, step, (m - 1) as nat) + (x / pow2(low) as int) % 2
    }
}

/// On the bits of a number the strided value is the number of the strided bits.
pub proof fn law_strided_bits<F: Field>(x: int, n: nat, start: nat, step: nat, m: nat)
    requires
        m == 0 || start + step * (m - 1) < n,
    ensures
        strided_value(binary_point::<F>(x, n), start as int, step as int, m as int) == F::of_int(
            strided_bits(x, (n - 1 - start - step * (m - 1)) as nat, step, m),
        ) || m == 0,
        m == 0 ==> strided_value(binary_point::<F>(x, n), start as int, step as int, m as int)
            == F::of_int(0),
    decreases m,
{
    let r = binary_point::<F>(x, n);
    if m > 0 {
        let m1 = (m - 1) as nat;
        let low = (n - 1 - start - step * m1) as nat;
        let bit = (x / pow2(low) as int) % 2;
        if m1 > 0 {
            assert(step * m1 == step * (m1 - 1) + step) by (nonlinear_arith);
            assert(step * (m1 - 1) >= 0) by (nonlinear_arith)
                requires
                    m1 >= 1,
            ;
        }
        law_strided_bits::<F>(x, n, start, step, m1);
        assert(step * m1 >= 0) by (nonlinear_arith);
        lemma_strided_step(r, start as int, step as int, m1 as int);
        assert(r[(start + step * m1) as int] == F::of_int(bit)) by {
            assert((n - 1 - (start + step * m1)) as nat == low);
        }
        let hi = strided_bits(x, low + step, step, m1);
        F::law_of_int_times(hi, 2);
        F::law_of_int_times(bit, 1);
        F::law_of_int_plus(hi * 2, bit);
        if m1 == 0 {
            assert(hi == 0);
        }
    }
}

/// One more coordinate doubles the number and adds the coordinate.
pub proof fn lemma_strided_step<F: Field>(r: Seq<F>, start: int, step: int, m: int)
    requires
        m >= 0,
    ensures
        strided_value(r, start, step, m + 1) == strided_value(r, start, step, m).times(
            F::of_int(2),
        ).plus(r[start + step * m].times(F::of_int(1))),
{
    let f = |i: int| r[start + step * i].times(F::of_int(pow2((m - i) as nat) as int));
    let g = |i: int| r[start + step * i].times(F::of_int(pow2((m - 1 - i) as nat) as int));
    let h = |i: int| g(i).times(F::of_int(2));
    let f2 = |i: int|
        r[start + step * i].times(F::of_int(pow2(((m + 1) - 1 - i) as nat) as int));
    sums::lemma_sum_ext(m + 1, f2, f);
    assert forall|i: int| 0 <= i < m implies #[trigger] f(i) == h(i) by {
        poly::lemma_pow2_step((m - i) as nat);
        let low = pow2((m - 1 - i) as nat) as int;
        F::law_of_int_times(low, 2);
        F::law_times_assoc(r[start + step * i], F::of_int(low), F::of_int(2));
    }
    sums::lemma_sum_ext(m, f, h);
    sums::lemma_sum_scale_right(m, g, F::of_int(2));
    poly::lemma_pow2_zero();
}

/// On the bits of a number the equality polynomial selects the number.
pub proof fn lemma_binary_weight<F: Field>(x: int, n: nat, i: int)
    requires
        0 <= x < pow2(n),
        0 <= i < pow2(n),
    ensures
        poly::eq_weight(binary_point::<F>(x, n), i) == F::of_int(
            if i == x {
                1
            } else {
                0
            },
        ),
    decreases n,
{
    let r = binary_point::<F>(x, n);
    poly::lemma_pow2_zero();
    if n > 0 {
        let m = (n - 1) as nat;
        poly::lemma_pow2_step(n);
        let rest = binary_point::<F>(x / 2, m);
        assert forall|k: int| 0 <= k < m implies r[k] == rest[k] by {
            let low = (m - 1 - k) as nat;
            poly::lemma_pow2_step((n - 1 - k) as nat);
            vstd::arithmetic::power2::lemma_pow2_pos(low);
            vstd::arithmetic::div_mod::lemma_div_denominator(x, 2, pow2(low) as int);
        }
        assert(r.drop_last() =~= rest);
        lemma_binary_weight::<F>(x / 2, m, i / 2);
        assert(r.last() == F::of_int(x % 2)) by {
            assert(x / 1 == x);
        }
        let high = F::of_int(
            if i / 2 == x / 2 {
                1
            } else {
                0
            },
        );
        let bit = x % 2;
        F::law_minus(F::of_int(1), F::of_int(bit));
        F::law_of_int_times(bit, -1);
        F::law_of_int_plus(1, bit * -1);
        let low = if i % 2 == 1 {
            bit
        } else {
            1 - bit
        };
        assert(bit * -1 == -bit);
        assert(poly::eq_weight(r, i) == high.times(F::of_int(low)));
        F::law_of_int_times(
            if i / 2 == x / 2 {
                1
            } else {
                0
            },
            low,
        );
    }
}

/// On the bits of a number the extension of a column is its entry.
pub proof fn law_mle_binary_point<F: Field>(p: Seq<F>, x: int, n: nat)
    requires
        p.len() == pow2(n),
        0 <= x < pow2(n),
        p[x].valid(),
    ensures
        poly::mle(p, binary_point::<F>(x, n)) == p[x],
{
    let r = binary_point::<F>(x, n);
    let f = |i: int| p[i].times(poly::eq_weight(r, i));
    assert forall|i: int| 0 <= i < p.len() && i != x implies #[trigger] f(i) == F::of_int(0) by {
        lemma_binary_weight::<F>(x, n, i);
        F::law_times_zero(p[i]);
    }
    lemma_binary_weight::<F>(x, n, x);
    F::law_times_one(p[x]);
    sums::lemma_sum_single(p.len() as int, x, f);
}

/// The equality polynomial at a point and the bits of a number is its weight there.
pub proof fn law_eq_binary_point<F: Field>(r: Seq<F>, x: int)
    requires
        0 <= x < pow2(r.len()),
    ensures
        poly::eq_mle(r, binary_point::<F>(x, r.len())) == poly::eq_weight(r, x),
{
    poly::lemma_mle_eq_table(r, binary_point::<F>(x, r.len()));
    poly::lemma_eq_weight_valid(r, x);
    law_mle_binary_point(poly::eq_table(r), x, r.len());
}

} // verus!
