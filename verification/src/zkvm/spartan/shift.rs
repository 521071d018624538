//! Spartan shift sumcheck.
//!
//! The claims about the next cycle are claims about the cycle columns shifted by one: the batch of
//! the five next-cycle claims is the sum over all cycles `j` of
//! `succ(r_outer, j) (s0 + g s1 + g^2 s2 + g^3 s3)(j) + g^4 succ(r_product, j) (1 - s4(j))`, where
//! `succ(r, j)` extends the indicator that `j` is the successor of `r`.

use crate::field;
use crate::field::Field;
use crate::framework::accumulator;
use crate::framework::accumulator::{Claims, OpeningId, Openings, SumcheckId, VirtualPolynomial};
use crate::framework::formula;
use crate::framework::formula::Formula;
use crate::framework::poly;
use crate::framework::poly::MultilinearPolynomial;
use crate::framework::sumcheck;
use crate::framework::sumcheck::{SumTable, VirtualSum};
use crate::framework::sums;
use crate::framework::transcript::Challenge;
use vstd::arithmetic::power2::pow2;
use vstd::prelude::*;

verus! {

/// The degree of the summed formula.
pub const DEGREE: usize = 2;

/// The powers of the batching challenge and the two points of the input claims.
#[derive(Debug)]
pub struct SpartanShiftParams<F> {
    /// The powers of the challenge from the zeroth to the fourth.
    pub gamma_powers: [F; 5],
    pub log_t: usize,
    pub r_outer: Vec<F>,
    pub r_product: Vec<F>,
}

/// The name of the `i`-th next-cycle claim.
pub open spec fn next_id(i: int) -> OpeningId {
    seq![
        accumulator::virt(VirtualPolynomial::NextUnexpandedPC, SumcheckId::SpartanOuter),
        accumulator::virt(VirtualPolynomial::NextPC, SumcheckId::SpartanOuter),
        accumulator::virt(VirtualPolynomial::NextIsVirtual, SumcheckId::SpartanOuter),
        accumulator::virt(VirtualPolynomial::NextIsFirstInSequence, SumcheckId::SpartanOuter),
        accumulator::virt(VirtualPolynomial::NextIsNoop, SumcheckId::SpartanProductVirtualization),
    ][i]
}

/// The polynomials of the five shifted columns.
pub open spec fn keys() -> Seq<VirtualPolynomial> {
    seq![
        VirtualPolynomial::UnexpandedPC,
        VirtualPolynomial::PC,
        VirtualPolynomial::NextIsVirtual,
        VirtualPolynomial::NextIsFirstInSequence,
        VirtualPolynomial::NextIsNoop,
    ]
}

/// The name of the reduced claim about column `i`.
pub open spec fn reduced_id(i: int) -> OpeningId {
    accumulator::virt(keys()[i], SumcheckId::SpartanShift)
}

/// The five next-cycle claims were recorded.
pub open spec fn has_input<F: Field>(acc: Claims<F>) -> bool {
    forall|i: int| 0 <= i < 5 ==> acc.contains_key(#[trigger] next_id(i))
}

/// The powers of a challenge from the zeroth to the fourth.
pub open spec fn powers<F: Field>(g: F) -> Seq<F> {
    Seq::new(5, |i: int| sums::power(g, i))
}

/// The batch of five values, the last one complemented: the first is not scaled.
pub open spec fn batch<F: Field>(gp: Seq<F>, v: Seq<F>) -> F {
    v[0].plus(gp[1].times(v[1])).plus(gp[2].times(v[2])).plus(gp[3].times(v[3])).plus(
        gp[4].times(F::of_int(1).minus(v[4])),
    )
}

/// The batched input claim.
pub open spec fn input<F: Field>(gp: Seq<F>, acc: Claims<F>) -> F {
    batch(gp, Seq::new(5, |i: int| acc[next_id(i)].1))
}

/// The outer part of the batch of the five shifted columns.
pub open spec fn outer_terms<F: Field>(gp: Seq<F>, v: Seq<F>) -> F {
    v[0].plus(gp[1].times(v[1])).plus(gp[2].times(v[2])).plus(gp[3].times(v[3]))
}

/// The summed formula over the columns `succ_outer, succ_product, s0, .., s4`.
pub open spec fn summand<F: Field>(gp: Seq<F>) -> Formula<F> {
    formula::plus(
        formula::times(
            formula::col(0),
            formula::plus(
                formula::plus(
                    formula::plus(
                        formula::col(2),
                        formula::times(formula::con(gp[1]), formula::col(3)),
                    ),
                    formula::times(formula::con(gp[2]), formula::col(4)),
                ),
                formula::times(formula::con(gp[3]), formula::col(5)),
            ),
        ),
        formula::times(
            formula::times(formula::con(gp[4]), formula::col(1)),
            formula::minus(formula::con(F::of_int(1)), formula::col(6)),
        ),
    )
}

/// The table the prover sums.
pub open spec fn table<F: Field>(
    gp: Seq<F>,
    r_outer: Seq<F>,
    r_product: Seq<F>,
    cols: Seq<Seq<F>>,
) -> SumTable<F> {
    SumTable {
        columns: seq![poly::eq_plus_one_table(r_outer), poly::eq_plus_one_table(r_product)] + cols,
        formula: summand(gp),
    }
}

/// The claims after the first `n` reduced openings are recorded at the reversed challenges.
pub open spec fn cached<F: Field>(acc: Claims<F>, xs: Seq<F>, v: Seq<F>, n: int) -> Claims<F>
    decreases n,
{
    if n <= 0 {
        acc
    } else {
        cached(acc, xs, v, n - 1).insert(reduced_id(n - 1), (xs.reverse(), v[n - 1]))
    }
}

/// The values of the five reduced openings.
pub open spec fn reduced<F: Field>(acc: Claims<F>) -> Seq<F> {
    Seq::new(5, |i: int| acc[reduced_id(i)].1)
}

/// The claim the reduced openings must satisfy.
pub open spec fn output<F: Field>(
    gp: Seq<F>,
    r_outer: Seq<F>,
    r_product: Seq<F>,
    acc: Claims<F>,
    xs: Seq<F>,
) -> F {
    let v = reduced(acc);
    let y = xs.reverse();
    poly::eq_plus_one_mle(r_outer, y).times(outer_terms(gp, v)).plus(
        gp[4].times(poly::eq_plus_one_mle(r_product, y)).times(F::of_int(1).minus(v[4])),
    )
}

impl<F: Field> SpartanShiftParams<F> {
    /// Draw the powers of the challenge and read the two points, each cut to the cycle variables.
    pub fn new<T: Challenge<F>>(
        accumulator: &Openings<F>,
        log_t: usize,
        transcript: &mut T,
    ) -> (r: Self)
        requires
            accumulator@.contains_key(next_id(1)),
            accumulator@.contains_key(next_id(4)),
            accumulator@[next_id(1)].0.len() >= log_t,
            accumulator@[next_id(4)].0.len() >= log_t,
        ensures
            r.gamma_powers@ == powers(old(transcript).state().next()),
            r.log_t == log_t,
            r.r_outer@ == accumulator@[next_id(1)].0.take(log_t as int),
            r.r_product@ == accumulator@[next_id(4)].0.take(log_t as int),
            final(transcript).state() == old(transcript).state().squeeze(),
    {
        let gamma: F = transcript.challenge();
        let g0: F = field::one();
        let g1: F = g0.mul(gamma);
        let g2: F = g1.mul(gamma);
        let g3: F = g2.mul(gamma);
        let g4: F = g3.mul(gamma);
        let gamma_powers: [F; 5] = [g0, g1, g2, g3, g4];
        proof {
            reveal_with_fuel(sums::power, 6);
            assert(gamma_powers@ =~= powers(gamma));
        }
        let (outer, _) = accumulator.get_virtual_polynomial_opening(
            VirtualPolynomial::NextPC,
            SumcheckId::SpartanOuter,
        );
        let (product, _) = accumulator.get_virtual_polynomial_opening(
            VirtualPolynomial::NextIsNoop,
            SumcheckId::SpartanProductVirtualization,
        );
        SpartanShiftParams {
            gamma_powers,
            log_t,
            r_outer: poly::range(&outer, 0, log_t),
            r_product: poly::range(&product, 0, log_t),
        }
    }

    /// The batched input claim.
    pub fn input_claim(&self, accumulator: &Openings<F>) -> (r: F)
        requires
            has_input(accumulator@),
        ensures
            r == input(self.gamma_powers@, accumulator@),
    {
        proof {
            assert(accumulator@.contains_key(next_id(0)));
            assert(accumulator@.contains_key(next_id(1)));
            assert(accumulator@.contains_key(next_id(2)));
            assert(accumulator@.contains_key(next_id(3)));
            assert(accumulator@.contains_key(next_id(4)));
        }
        let g: [F; 5] = self.gamma_powers;
        let v0: F = accumulator.virtual_claim(
            VirtualPolynomial::NextUnexpandedPC,
            SumcheckId::SpartanOuter,
        );
        let v1: F = accumulator.virtual_claim(
            VirtualPolynomial::NextPC,
            SumcheckId::SpartanOuter,
        );
        let v2: F = accumulator.virtual_claim(
            VirtualPolynomial::NextIsVirtual,
            SumcheckId::SpartanOuter,
        );
        let v3: F = accumulator.virtual_claim(
            VirtualPolynomial::NextIsFirstInSequence,
            SumcheckId::SpartanOuter,
        );
        let v4: F = accumulator.virtual_claim(
            VirtualPolynomial::NextIsNoop,
            SumcheckId::SpartanProductVirtualization,
        );
        let one: F = field::one();
        v0.add(g[1].mul(v1)).add(g[2].mul(v2)).add(g[3].mul(v3)).add(g[4].mul(one.sub(v4)))
    }
}

/// The Spartan shift instance.
pub struct SpartanShift<F> {
    pub params: SpartanShiftParams<F>,
    pub sum: VirtualSum<F>,
}

impl<F: Field> SpartanShift<F> {
    /// The prover's instance over the five columns.
    pub fn new_prover(params: SpartanShiftParams<F>, shift_cols: Vec<Vec<F>>) -> (r: Self)
        requires
            shift_cols@.len() == 5,
            pow2(params.r_outer@.len()) <= usize::MAX,
            pow2(params.r_product@.len()) <= usize::MAX,
        ensures
            r.params == params,
            r.sum@ == table(
                params.gamma_powers@,
                params.r_outer@,
                params.r_product@,
                shift_cols@.map_values(|c: Vec<F>| c@),
            ),
    {
        let ghost target = table(
            params.gamma_powers@,
            params.r_outer@,
            params.r_product@,
            shift_cols@.map_values(|c: Vec<F>| c@),
        );
        let mut columns: Vec<MultilinearPolynomial<F>> = Vec::new();
        columns.push(MultilinearPolynomial::new(poly::eq_plus_one_evals(&params.r_outer)));
        columns.push(MultilinearPolynomial::new(poly::eq_plus_one_evals(&params.r_product)));
        assert(columns@.map_values(|p: MultilinearPolynomial<F>| p@) =~= target.columns.take(2));
        for i in 0..5usize
            invariant
                shift_cols@.len() == 5,
                target == table(
                    params.gamma_powers@,
                    params.r_outer@,
                    params.r_product@,
                    shift_cols@.map_values(|c: Vec<F>| c@),
                ),
                columns@.map_values(|p: MultilinearPolynomial<F>| p@) == target.columns.take(
                    i + 2,
                ),
        {
            let ghost before = columns@.map_values(|p: MultilinearPolynomial<F>| p@);
            columns.push(MultilinearPolynomial::new(poly::copied(&shift_cols[i])));
            assert(columns@.map_values(|p: MultilinearPolynomial<F>| p@) =~= before.push(
                shift_cols@[i as int]@,
            ));
            assert(before.push(target.columns[i + 2]) =~= target.columns.take(i + 3));
        }
        let one: F = field::one();
        let sum: VirtualSum<F> = VirtualSum::new(
            columns,
            Formula::column(0)
                .product(
                    Formula::column(2)
                        .sum(Formula::constant(params.gamma_powers[1]).product(Formula::column(3)))
                        .sum(Formula::constant(params.gamma_powers[2]).product(Formula::column(4)))
                        .sum(Formula::constant(params.gamma_powers[3]).product(Formula::column(5))),
                )
                .sum(
                    Formula::constant(params.gamma_powers[4])
                        .product(Formula::column(1))
                        .product(Formula::constant(one).difference(Formula::column(6))),
                ),
        );
        assert(sum@.columns =~= target.columns);
        SpartanShift { params, sum }
    }

    /// The verifier's instance, which holds no columns to sum.
    pub fn new_verifier(params: SpartanShiftParams<F>) -> (r: Self)
        ensures
            r.params == params,
    {
        Self { params, sum: VirtualSum::empty() }
    }

    /// One round per cycle variable.
    pub fn num_rounds(&self) -> (r: usize)
        ensures
            r == self.params.log_t,
    {
        self.params.log_t
    }

    /// Record the five reduced openings of the fully bound columns.
    pub fn cache_openings(&self, accumulator: &mut Openings<F>, challenges: &[F])
        requires
            self.sum@.columns.len() == 7,
            forall|c: int| 0 <= c < 7 ==> (#[trigger] self.sum@.columns[c]).len() > 0,
        ensures
            final(accumulator)@ == cached(
                old(accumulator)@,
                challenges@,
                self.sum@.columns.skip(2).map_values(|p: Seq<F>| p[0]),
                5,
            ),
    {
        let id: SumcheckId = SumcheckId::SpartanShift;
        proof {
            reveal_with_fuel(cached, 6);
        }
        accumulator.append_virtual(
            VirtualPolynomial::UnexpandedPC,
            id,
            poly::reversed(challenges),
            self.sum.bound_value(2),
        );
        accumulator.append_virtual(
            VirtualPolynomial::PC,
            id,
            poly::reversed(challenges),
            self.sum.bound_value(3),
        );
        accumulator.append_virtual(
            VirtualPolynomial::NextIsVirtual,
            id,
            poly::reversed(challenges),
            self.sum.bound_value(4),
        );
        accumulator.append_virtual(
            VirtualPolynomial::NextIsFirstInSequence,
            id,
            poly::reversed(challenges),
            self.sum.bound_value(5),
        );
        accumulator.append_virtual(
            VirtualPolynomial::NextIsNoop,
            id,
            poly::reversed(challenges),
            self.sum.bound_value(6),
        );
    }

    /// The claim the reduced openings must satisfy.
    pub fn expected_output_claim(&self, accumulator: &Openings<F>, challenges: &[F]) -> (r: F)
        requires
            forall|i: int| 0 <= i < 5 ==> accumulator@.contains_key(#[trigger] reduced_id(i)),
            challenges@.len() == self.params.r_outer@.len(),
            challenges@.len() == self.params.r_product@.len(),
        ensures
            r == output(
                self.params.gamma_powers@,
                self.params.r_outer@,
                self.params.r_product@,
                accumulator@,
                challenges@,
            ),
    {
        let id: SumcheckId = SumcheckId::SpartanShift;
        proof {
            assert(accumulator@.contains_key(reduced_id(0)));
            assert(accumulator@.contains_key(reduced_id(1)));
            assert(accumulator@.contains_key(reduced_id(2)));
            assert(accumulator@.contains_key(reduced_id(3)));
            assert(accumulator@.contains_key(reduced_id(4)));
        }
        let g: [F; 5] = self.params.gamma_powers;
        let point: Vec<F> = poly::reversed(challenges);
        let outer: F = poly::eq_plus_one_at(&self.params.r_outer, &point);
        let product: F = poly::eq_plus_one_at(&self.params.r_product, &point);
        let v0: F = accumulator.virtual_claim(VirtualPolynomial::UnexpandedPC, id);
        let v1: F = accumulator.virtual_claim(VirtualPolynomial::PC, id);
        let v2: F = accumulator.virtual_claim(VirtualPolynomial::NextIsVirtual, id);
        let v3: F = accumulator.virtual_claim(VirtualPolynomial::NextIsFirstInSequence, id);
        let v4: F = accumulator.virtual_claim(VirtualPolynomial::NextIsNoop, id);
        let one: F = field::one();
        let terms: F = v0.add(g[1].mul(v1)).add(g[2].mul(v2)).add(g[3].mul(v3));
        outer.mul(terms).add(g[4].mul(product).mul(one.sub(v4)))
    }
}

/// The table is shaped: its columns have one entry for every point, and the degree of its formula is
/// the one that the verifier allows.
pub proof fn law_table_shaped<F: Field>(
    gp: Seq<F>,
    r_outer: Seq<F>,
    r_product: Seq<F>,
    cols: Seq<Seq<F>>,
)
    requires
        gp.len() == 5,
        cols.len() == 5,
        r_product.len() == r_outer.len(),
        forall|c: int| 0 <= c < 5 ==> (#[trigger] cols[c]).len() == pow2(r_outer.len()),
    ensures
        table(gp, r_outer, r_product, cols).shaped(r_outer.len()),
        table(gp, r_outer, r_product, cols).formula.degree() == DEGREE,
        field::all_valid(gp) && (forall|c: int| 0 <= c < 5 ==> field::all_valid(#[trigger] cols[c]))
            ==> table(gp, r_outer, r_product, cols).canonical(),
{
    reveal_with_fuel(Formula::reads, 8);
    reveal_with_fuel(Formula::degree, 8);
    reveal_with_fuel(Formula::canonical, 8);
    poly::lemma_eq_plus_one_table_valid(r_outer);
    poly::lemma_eq_plus_one_table_valid(r_product);
    F::law_of_int_valid(1);
    let t = table(gp, r_outer, r_product, cols);
    assert forall|c: int| 0 <= c < 7 implies (#[trigger] t.columns[c]).len() == pow2(
        r_outer.len(),
    ) by {
        if c > 1 {
            assert(t.columns[c] == cols[c - 2]);
        }
    }
    if field::all_valid(gp) && (forall|c: int| 0 <= c < 5 ==> field::all_valid(#[trigger] cols[c])) {
        assert(gp[1].valid() && gp[2].valid() && gp[3].valid() && gp[4].valid());
        assert forall|c: int| 0 <= c < 7 implies field::all_valid(#[trigger] t.columns[c]) by {
            if c > 1 {
                assert(t.columns[c] == cols[c - 2]);
            }
        }
    }
}

/// The value of a column at the successor of a point.
pub open spec fn next_value<F: Field>(r: Seq<F>, p: Seq<F>) -> F {
    sums::sum(p.len() as int, |j: int| poly::eq_plus_one_table(r)[j].times(p[j]))
}

/// The sum over the cycles is the batch of the columns' values at the successors of the two points.
pub proof fn law_total<F: Field>(gp: Seq<F>, r_outer: Seq<F>, r_product: Seq<F>, cols: Seq<Seq<F>>)
    requires
        cols.len() == 5,
        r_product.len() == r_outer.len(),
        forall|c: int| 0 <= c < 5 ==> (#[trigger] cols[c]).len() == pow2(r_outer.len()),
    ensures
        table(gp, r_outer, r_product, cols).total() == next_value(r_outer, cols[0]).plus(
            gp[1].times(next_value(r_outer, cols[1])),
        ).plus(gp[2].times(next_value(r_outer, cols[2]))).plus(
            gp[3].times(next_value(r_outer, cols[3])),
        ).plus(
            gp[4].times(
                next_value(
                    r_product,
                    cols[4].map_values(|x: F| F::of_int(1).minus(x)),
                ),
            ),
        ),
{
    let t = table(gp, r_outer, r_product, cols);
    let n = pow2(r_outer.len()) as int;
    assert(cols[0].len() == n && cols[1].len() == n && cols[2].len() == n);
    assert(cols[3].len() == n && cols[4].len() == n);
    let eo = poly::eq_plus_one_table(r_outer);
    let ep = poly::eq_plus_one_table(r_product);
    let comp = cols[4].map_values(|x: F| F::of_int(1).minus(x));
    let f0 = |j: int| eo[j].times(cols[0][j]);
    let f1 = |j: int| eo[j].times(cols[1][j]);
    let f2 = |j: int| eo[j].times(cols[2][j]);
    let f3 = |j: int| eo[j].times(cols[3][j]);
    let f4 = |j: int| ep[j].times(comp[j]);
    let h1 = |j: int| gp[1].times(f1(j));
    let h2 = |j: int| gp[2].times(f2(j));
    let h3 = |j: int| gp[3].times(f3(j));
    let h4 = |j: int| gp[4].times(f4(j));
    let s1 = |j: int| f0(j).plus(h1(j));
    let s2 = |j: int| s1(j).plus(h2(j));
    let s3 = |j: int| s2(j).plus(h3(j));
    let s4 = |j: int| s3(j).plus(h4(j));
    let f = |i: int| t.formula.value(t.row(i));
    assert forall|j: int| 0 <= j < n implies #[trigger] f(j) == s4(j) by {
        reveal_with_fuel(Formula::value, 8);
        let row = t.row(j);
        assert(row[0] == eo[j] && row[1] == ep[j]);
        assert(row[2] == cols[0][j] && row[3] == cols[1][j] && row[4] == cols[2][j]);
        assert(row[5] == cols[3][j] && row[6] == cols[4][j]);
        let e = eo[j];
        let v0 = cols[0][j];
        let v1 = gp[1].times(cols[1][j]);
        let v2 = gp[2].times(cols[2][j]);
        let v3 = gp[3].times(cols[3][j]);
        F::law_distrib(e, v0.plus(v1).plus(v2), v3);
        F::law_distrib(e, v0.plus(v1), v2);
        F::law_distrib(e, v0, v1);
        field::lemma_times_swap(e, gp[1], cols[1][j]);
        field::lemma_times_swap(e, gp[2], cols[2][j]);
        field::lemma_times_swap(e, gp[3], cols[3][j]);
        F::law_times_assoc(gp[4], ep[j], comp[j]);
    }
    sums::lemma_sum_ext(n, f, s4);
    sums::lemma_sum_plus(n, s3, h4);
    sums::lemma_sum_plus(n, s2, h3);
    sums::lemma_sum_plus(n, s1, h2);
    sums::lemma_sum_plus(n, f0, h1);
    sums::lemma_sum_scale(n, gp[1], f1);
    sums::lemma_sum_scale(n, gp[2], f2);
    sums::lemma_sum_scale(n, gp[3], f3);
    sums::lemma_sum_scale(n, gp[4], f4);
    assert(t.columns[0] == eo);
}

/// The value at the successor of a point is the extension of the column shifted down by one.
pub proof fn law_next_value<F: Field>(r: Seq<F>, p: Seq<F>)
    requires
        p.len() == pow2(r.len()),
    ensures
        next_value(r, p) == sums::sum(
            p.len() - 1,
            |j: int| poly::eq_weight(r, j).times(p[j + 1]),
        ),
{
    let n = p.len() as int;
    vstd::arithmetic::power2::lemma_pow2_pos(r.len());
    let f = |j: int| poly::eq_plus_one_table(r)[j].times(p[j]);
    let g = |j: int| poly::eq_weight(r, j).times(p[j + 1]);
    let tail = |i: int| f(1 + i);
    sums::lemma_sum_split(1, n - 1, f);
    poly::lemma_eq_plus_one_shifts(r, 0);
    field::lemma_zero_times(p[0]);
    F::law_of_int_plus(0, 0);
    assert(sums::sum(0, f) == F::of_int(0));
    assert(sums::sum(1, f) == sums::sum(0, f).plus(f(0)));
    assert forall|j: int| 0 <= j < n - 1 implies #[trigger] tail(j) == g(j) by {
        poly::lemma_eq_plus_one_shifts(r, 1 + j);
    }
    sums::lemma_sum_ext(n - 1, tail, g);
    sums::lemma_sum_valid(n - 1, g);
    field::lemma_zero_plus(sums::sum(n - 1, g));
}

/// The openings cached by the prover satisfy the output claim: it is the value to which the
/// sumcheck reduces.
pub proof fn law_output<F: Field>(
    gp: Seq<F>,
    r_outer: Seq<F>,
    r_product: Seq<F>,
    cols: Seq<Seq<F>>,
    acc: Claims<F>,
    xs: Seq<F>,
)
    requires
        cols.len() == 5,
        xs.len() == r_outer.len(),
        xs.len() == r_product.len(),
    ensures
        output(
            gp,
            r_outer,
            r_product,
            cached(acc, xs, cols.map_values(|c: Seq<F>| poly::mle(c, xs.reverse())), 5),
            xs,
        ) == summand(gp).value(
            sumcheck::final_row(table(gp, r_outer, r_product, cols).columns, xs),
        ),
{
    let v = cols.map_values(|c: Seq<F>| poly::mle(c, xs.reverse()));
    let acc1 = cached(acc, xs, v, 5);
    let row = sumcheck::final_row(table(gp, r_outer, r_product, cols).columns, xs);
    reveal_with_fuel(Formula::value, 8);
    reveal_with_fuel(cached, 6);
    poly::lemma_mle_eq_plus_one_table(r_outer, xs.reverse());
    poly::lemma_mle_eq_plus_one_table(r_product, xs.reverse());
    assert(reduced(acc1) =~= v);
    assert(row[2] == v[0] && row[3] == v[1] && row[4] == v[2]);
    assert(row[5] == v[3] && row[6] == v[4]);
}

} // verus!
