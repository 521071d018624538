//! One layer of the circuit: a claim about a level is reduced to a claim about the level below.
//!
//! With `NL, NR, DL, DR` the numerators and denominators of the even and the odd gates of the level
//! below, the claim is the sum over all gates `i` of
//! `eq(point, i) (alpha (NL(i) DR(i) + NR(i) DL(i)) + beta DL(i) DR(i))`.

use crate::field;
use crate::field::Field;
use crate::framework::formula;
use crate::framework::formula::Formula;
use crate::framework::poly;
use crate::framework::poly::MultilinearPolynomial;
use crate::framework::sumcheck;
use crate::framework::sumcheck::{SumTable, VirtualSum};
use crate::framework::sums;
use crate::zkvm::logup::circuit;
use crate::zkvm::logup::circuit::Gate;
use vstd::arithmetic::power2::pow2;
use vstd::prelude::*;

verus! {

/// The degree of the summed formula.
pub const DEGREE: usize = 3;

/// The batch of the numerator and the denominator of a sum of two fractions.
pub open spec fn combine<F: Field>(alpha: F, beta: F, nl: F, nr: F, dl: F, dr: F) -> F {
    alpha.times(nl.times(dr).plus(nr.times(dl))).plus(beta.times(dl.times(dr)))
}

/// The batch of the numerator and the denominator of a sum of two fractions.
pub fn f_combine<F: Field>(alpha: F, beta: F, nl: F, nr: F, dl: F, dr: F) -> (r: F)
    ensures
        r == combine(alpha, beta, nl, nr, dl, dr),
{
    alpha.mul(nl.mul(dr).add(nr.mul(dl))).add(beta.mul(dl.mul(dr)))
}

/// The numerators of the gates with a given parity.
pub open spec fn numerators<F: Field>(gates: Seq<Gate<F>>, odd: int) -> Seq<F> {
    Seq::new(gates.len() / 2, |i: int| gates[2 * i + odd].0)
}

/// The denominators of the gates with a given parity.
pub open spec fn denominators<F: Field>(gates: Seq<Gate<F>>, odd: int) -> Seq<F> {
    Seq::new(gates.len() / 2, |i: int| gates[2 * i + odd].1)
}

/// The summed formula over the columns `eq, NL, NR, DL, DR`.
pub open spec fn summand<F: Field>(alpha: F, beta: F) -> Formula<F> {
    formula::times(
        formula::col(0),
        formula::plus(
            formula::times(
                formula::con(alpha),
                formula::plus(
                    formula::times(formula::col(1), formula::col(4)),
                    formula::times(formula::col(2), formula::col(3)),
                ),
            ),
            formula::times(
                formula::con(beta),
                formula::times(formula::col(3), formula::col(4)),
            ),
        ),
    )
}

/// The table the prover sums; the first coordinate of the point is the least significant.
pub open spec fn table<F: Field>(
    gates: Seq<Gate<F>>,
    point: Seq<F>,
    alpha: F,
    beta: F,
) -> SumTable<F> {
    SumTable {
        columns: seq![
            poly::eq_table(point.reverse()),
            numerators(gates, 0),
            numerators(gates, 1),
            denominators(gates, 0),
            denominators(gates, 1),
        ],
        formula: summand(alpha, beta),
    }
}

/// The instance of one layer.
pub struct GkrLayer<F> {
    pub point: Vec<F>,
    pub alpha: F,
    pub beta: F,
    pub claim: F,
    pub sum: VirtualSum<F>,
}

impl<F: Field> GkrLayer<F> {
    /// The layer above the given gates, at a claimed point.
    pub fn new(
        level_below: &Vec<(F, F)>,
        point: Vec<F>,
        alpha: F,
        beta: F,
        input_claim: F,
    ) -> (r: Self)
        requires
            level_below@.len() == pow2(point@.len() + 1),
        ensures
            r.point@ == point@,
            r.alpha == alpha,
            r.beta == beta,
            r.claim == input_claim,
            r.sum@ == table(level_below@, point@, alpha, beta),
    {
        let len: usize = level_below.len();
        let half: usize = len / 2;
        let ghost gates = level_below@;
        proof {
            poly::lemma_pow2_step(point@.len() + 1);
        }
        let mut nl: Vec<F> = Vec::new();
        let mut nr: Vec<F> = Vec::new();
        let mut dl: Vec<F> = Vec::new();
        let mut dr: Vec<F> = Vec::new();
        for i in 0..half
            invariant
                len == gates.len(),
                half == len / 2,
                gates == level_below@,
                nl@ == numerators(gates, 0).take(i as int),
                nr@ == numerators(gates, 1).take(i as int),
                dl@ == denominators(gates, 0).take(i as int),
                dr@ == denominators(gates, 1).take(i as int),
        {
            let (n0, d0) = level_below[2 * i];
            let (n1, d1) = level_below[2 * i + 1];
            nl.push(n0);
            nr.push(n1);
            dl.push(d0);
            dr.push(d1);
            assert(nl@ =~= numerators(gates, 0).take(i + 1));
            assert(nr@ =~= numerators(gates, 1).take(i + 1));
            assert(dl@ =~= denominators(gates, 0).take(i + 1));
            assert(dr@ =~= denominators(gates, 1).take(i + 1));
        }
        let mut columns: Vec<MultilinearPolynomial<F>> = Vec::new();
        columns.push(MultilinearPolynomial::new(poly::eq_evals(&poly::reversed(&point))));
        columns.push(MultilinearPolynomial::new(nl));
        columns.push(MultilinearPolynomial::new(nr));
        columns.push(MultilinearPolynomial::new(dl));
        columns.push(MultilinearPolynomial::new(dr));
        let cross: Formula<F> = Formula::column(1).product(Formula::column(4)).sum(
            Formula::column(2).product(Formula::column(3)),
        );
        let denominator: Formula<F> = Formula::column(3).product(Formula::column(4));
        let batch: Formula<F> = Formula::constant(alpha).product(cross).sum(
            Formula::constant(beta).product(denominator),
        );
        let sum: VirtualSum<F> = VirtualSum::new(columns, Formula::column(0).product(batch));
        proof {
            let target = table(gates, point@, alpha, beta);
            assert(nl@ =~= target.columns[1]);
            assert(nr@ =~= target.columns[2]);
            assert(dl@ =~= target.columns[3]);
            assert(dr@ =~= target.columns[4]);
            assert(sum@.columns =~= target.columns);
        }
        GkrLayer { point, alpha, beta, claim: input_claim, sum }
    }

    /// One round per variable of the level.
    pub fn num_rounds(&self) -> (r: usize)
        ensures
            r == self.point@.len(),
    {
        self.point.len()
    }

    /// The degree of a round polynomial.
    pub fn degree(&self) -> (r: usize)
        ensures
            r == DEGREE,
    {
        DEGREE
    }

    /// The claim about the level.
    pub fn input_claim(&self) -> (r: F)
        ensures
            r == self.claim,
    {
        self.claim
    }

    /// The equality factor of the fully bound table.
    pub fn bound_eq_scalar(&self) -> (r: F)
        requires
            self.sum@.columns.len() == 5,
            self.sum@.columns[0].len() > 0,
        ensures
            r == self.sum@.columns[0][0],
    {
        self.sum.bound_value(0)
    }

    /// The values of the four columns of the fully bound table.
    pub fn leaf_values(&self) -> (r: (F, F, F, F))
        requires
            self.sum@.columns.len() == 5,
            forall|c: int| 0 <= c < 5 ==> (#[trigger] self.sum@.columns[c]).len() > 0,
        ensures
            r.0 == self.sum@.columns[1][0],
            r.1 == self.sum@.columns[2][0],
            r.2 == self.sum@.columns[3][0],
            r.3 == self.sum@.columns[4][0],
    {
        (
            self.sum.bound_value(1),
            self.sum.bound_value(2),
            self.sum.bound_value(3),
            self.sum.bound_value(4),
        )
    }

    /// The claim the bound values must satisfy.
    pub fn expected_output_claim(&self) -> (r: F)
        requires
            self.sum@.columns.len() == 5,
            forall|c: int| 0 <= c < 5 ==> (#[trigger] self.sum@.columns[c]).len() > 0,
        ensures
            r == self.sum@.columns[0][0].times(
                combine(
                    self.alpha,
                    self.beta,
                    self.sum@.columns[1][0],
                    self.sum@.columns[2][0],
                    self.sum@.columns[3][0],
                    self.sum@.columns[4][0],
                ),
            ),
    {
        let (nl, nr, dl, dr) = self.leaf_values();
        assert(self.sum@.columns[0].len() > 0);
        self.bound_eq_scalar().mul(f_combine(self.alpha, self.beta, nl, nr, dl, dr))
    }
}

/// The table is shaped: its columns have one entry for every point, and the degree of its formula is
/// the one that the verifier allows.
pub proof fn law_table_shaped<F: Field>(gates: Seq<Gate<F>>, point: Seq<F>, alpha: F, beta: F)
    requires
        gates.len() == pow2(point.len() + 1),
    ensures
        table(gates, point, alpha, beta).shaped(point.len()),
        table(gates, point, alpha, beta).formula.degree() == DEGREE,
        circuit::gates_valid(gates) && alpha.valid() && beta.valid() ==> table(
            gates,
            point,
            alpha,
            beta,
        ).canonical(),
{
    reveal_with_fuel(Formula::reads, 8);
    reveal_with_fuel(Formula::degree, 8);
    reveal_with_fuel(Formula::canonical, 8);
    poly::lemma_eq_table_valid(point.reverse());
    poly::lemma_pow2_step(point.len() + 1);
    if circuit::gates_valid(gates) {
        assert forall|odd: int| 0 <= odd < 2 implies field::all_valid(
            #[trigger] numerators(gates, odd),
        ) && field::all_valid(denominators(gates, odd)) by {
            assert forall|i: int| 0 <= i < gates.len() / 2 implies (#[trigger] numerators(
                gates,
                odd,
            )[i]).valid() by {
                assert(gates[2 * i + odd].0.valid());
            }
            assert forall|i: int| 0 <= i < gates.len() / 2 implies (#[trigger] denominators(
                gates,
                odd,
            )[i]).valid() by {
                assert(gates[2 * i + odd].1.valid());
            }
        }
        assert(field::all_valid(numerators(gates, 0)));
        assert(field::all_valid(numerators(gates, 1)));
    }
}

/// The numerator column of a level.
pub open spec fn level_numerators<F: Field>(gates: Seq<Gate<F>>) -> Seq<F> {
    Seq::new(gates.len(), |i: int| gates[i].0)
}

/// The denominator column of a level.
pub open spec fn level_denominators<F: Field>(gates: Seq<Gate<F>>) -> Seq<F> {
    Seq::new(gates.len(), |i: int| gates[i].1)
}

/// The sum is the batch of the level's numerators and denominators at the point.
pub proof fn law_total<F: Field>(gates: Seq<Gate<F>>, point: Seq<F>, alpha: F, beta: F)
    requires
        gates.len() == pow2(point.len() + 1),
    ensures
        ({
            let level = circuit::level_above(gates);
            table(gates, point, alpha, beta).total() == alpha.times(
                poly::mle(level_numerators(level), point.reverse()),
            ).plus(beta.times(poly::mle(level_denominators(level), point.reverse())))
        }),
{
    let t = table(gates, point, alpha, beta);
    let level = circuit::level_above(gates);
    let r = point.reverse();
    poly::lemma_pow2_step(point.len() + 1);
    let n = pow2(point.len()) as int;
    let nums = level_numerators(level);
    let dens = level_denominators(level);
    let f = |i: int| t.formula.value(t.row(i));
    let fn_ = |i: int| nums[i].times(poly::eq_weight(r, i));
    let fd = |i: int| dens[i].times(poly::eq_weight(r, i));
    let wn = |i: int| alpha.times(fn_(i));
    let wd = |i: int| beta.times(fd(i));
    let whole = |i: int| wn(i).plus(wd(i));
    assert forall|i: int| 0 <= i < n implies #[trigger] f(i) == whole(i) by {
        reveal_with_fuel(Formula::value, 8);
        let e = poly::eq_weight(r, i);
        F::law_distrib(e, alpha.times(nums[i]), beta.times(dens[i]));
        field::lemma_times_swap(e, alpha, nums[i]);
        field::lemma_times_swap(e, beta, dens[i]);
        F::law_times_comm(e, nums[i]);
        F::law_times_comm(e, dens[i]);
    }
    assert(t.size() == n);
    sums::lemma_sum_ext(n, f, whole);
    sums::lemma_sum_plus(n, wn, wd);
    sums::lemma_sum_scale(n, alpha, fn_);
    sums::lemma_sum_scale(n, beta, fd);
}

/// The reduced value is the equality factor times the batch of the four bound values.
pub proof fn law_output<F: Field>(
    gates: Seq<Gate<F>>,
    point: Seq<F>,
    alpha: F,
    beta: F,
    xs: Seq<F>,
)
    requires
        xs.len() == point.len(),
    ensures
        ({
            let row = sumcheck::final_row(table(gates, point, alpha, beta).columns, xs);
            summand(alpha, beta).value(row) == poly::eq_mle(point.reverse(), xs.reverse()).times(
                combine(alpha, beta, row[1], row[2], row[3], row[4]),
            )
        }),
{
    reveal_with_fuel(Formula::value, 8);
    poly::lemma_mle_eq_table(point.reverse(), xs.reverse());
}

/// Joining the even and the odd values with one more challenge evaluates the level below.
pub proof fn law_join<F: Field>(gates: Seq<Gate<F>>, xs: Seq<F>, t: F)
    requires
        gates.len() == pow2(xs.len() + 1),
    ensures
        ({
            let y = xs.reverse();
            let z = (seq![t] + xs).reverse();
            let nl = poly::mle(numerators(gates, 0), y);
            let nr = poly::mle(numerators(gates, 1), y);
            let dl = poly::mle(denominators(gates, 0), y);
            let dr = poly::mle(denominators(gates, 1), y);
            &&& poly::mle(level_numerators(gates), z) == nl.plus(t.times(nr.minus(nl)))
            &&& poly::mle(level_denominators(gates), z) == dl.plus(t.times(dr.minus(dl)))
        }),
{
    let y = xs.reverse();
    let z = (seq![t] + xs).reverse();
    assert(z.drop_last() =~= y);
    assert(z.last() == t);
    poly::lemma_pow2_step(xs.len() + 1);
    lemma_join_column(level_numerators(gates), numerators(gates, 0), numerators(gates, 1), z);
    lemma_join_column(
        level_denominators(gates),
        denominators(gates, 0),
        denominators(gates, 1),
        z,
    );
}

proof fn lemma_join_column<F: Field>(p: Seq<F>, even: Seq<F>, odd: Seq<F>, z: Seq<F>)
    requires
        z.len() > 0,
        p.len() == 2 * even.len(),
        even.len() == odd.len(),
        forall|i: int| 0 <= i < even.len() ==> #[trigger] even[i] == p[2 * i],
        forall|i: int| 0 <= i < odd.len() ==> #[trigger] odd[i] == p[2 * i + 1],
    ensures
        ({
            let l = poly::mle(even, z.drop_last());
            let r = poly::mle(odd, z.drop_last());
            poly::mle(p, z) == l.plus(z.last().times(r.minus(l)))
        }),
{
    let y = z.drop_last();
    let t = z.last();
    let n = even.len() as int;
    poly::lemma_mle_step(p, z);
    let q = poly::bind(p, t);
    let fl = |i: int| even[i].times(poly::eq_weight(y, i));
    let fr = |i: int| odd[i].times(poly::eq_weight(y, i));
    let diff = |i: int| fr(i).minus(fl(i));
    let scaled = |i: int| t.times(diff(i));
    let whole = |i: int| fl(i).plus(scaled(i));
    let f = |i: int| q[i].times(poly::eq_weight(y, i));
    assert forall|i: int| 0 <= i < n implies #[trigger] f(i) == whole(i) by {
        let e = poly::eq_weight(y, i);
        assert(even[i] == p[2 * i] && odd[i] == p[2 * i + 1]);
        let d = odd[i].minus(even[i]);
        field::lemma_distrib_right(e, even[i], t.times(d));
        F::law_times_assoc(t, d, e);
        field::lemma_distrib_minus(e, odd[i], even[i]);
        F::law_times_comm(e, d);
        F::law_times_comm(e, odd[i]);
        F::law_times_comm(e, even[i]);
    }
    sums::lemma_sum_ext(n, f, whole);
    sums::lemma_sum_plus(n, fl, scaled);
    sums::lemma_sum_scale(n, t, diff);
    sums::lemma_sum_minus(n, fr, fl);
    assert(q.len() == n);
    sums::lemma_sum_ext(n, scaled, |i: int| t.times(diff(i)));
    sums::lemma_sum_ext(n, diff, |i: int| fr(i).minus(fl(i)));
    sums::lemma_sum_ext(n, whole, |i: int| fl(i).plus(scaled(i)));
}

} // verus!
