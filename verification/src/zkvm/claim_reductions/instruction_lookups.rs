//! Instruction-lookup claim reduction.
//!
//! The five lookup claims opened at the Spartan point `r` are reduced to one point: their batch
//! with the powers of the challenge is the sum over all cycles `j` of `eq(r, j)` times the batch of
//! the five columns at `j`.

use crate::field;
use crate::field::Field;
use crate::framework::accumulator;
use crate::framework::accumulator::{Claims, OpeningId, Openings, SumcheckId, VirtualPolynomial};
use crate::framework::formula;
use crate::framework::formula::Formula;
use crate::framework::poly;
use crate::framework::poly::MultilinearPolynomial;
use crate::framework::sumcheck;
use crate::framework::sumcheck::{SumTable, VirtualSum};
use crate::framework::sums;
use crate::framework::transcript::Challenge;
use vstd::arithmetic::power2::pow2;
use vstd::prelude::*;

verus! {

/// The degree of the summed formula.
pub const DEGREE: usize = 2;

/// The powers of the batching challenge and the point of the input claims.
#[derive(Debug)]
pub struct InstructionLookupsClaimReductionParams<F> {
    /// The powers of the challenge from the zeroth to the fourth.
    pub coeffs: [F; 5],
    pub n_cycle_vars: usize,
    pub r_spartan: Vec<F>,
}

/// The five lookup polynomials of a sumcheck, in the order of the powers.
pub open spec fn ids(s: SumcheckId) -> Seq<OpeningId> {
    seq![
        accumulator::virt(VirtualPolynomial::LookupOutput, s),
        accumulator::virt(VirtualPolynomial::LeftLookupOperand, s),
        accumulator::virt(VirtualPolynomial::RightLookupOperand, s),
        accumulator::virt(VirtualPolynomial::LeftInstructionInput, s),
        accumulator::virt(VirtualPolynomial::RightInstructionInput, s),
    ]
}

/// The five claims of a sumcheck were recorded.
pub open spec fn has_all<F: Field>(acc: Claims<F>, s: SumcheckId) -> bool {
    forall|i: int| 0 <= i < 5 ==> acc.contains_key(#[trigger] ids(s)[i])
}

/// The values of the five claims of a sumcheck.
pub open spec fn values<F: Field>(acc: Claims<F>, s: SumcheckId) -> Seq<F> {
    ids(s).map_values(|id: OpeningId| acc[id].1)
}

/// The powers of a challenge from the zeroth to the fourth.
pub open spec fn powers<F: Field>(g: F) -> Seq<F> {
    let g2 = g.times(g);
    seq![F::of_int(1), g, g2, g2.times(g), g2.times(g2)]
}

/// The batch of five values.
pub open spec fn batch<F: Field>(a: Seq<F>, v: Seq<F>) -> F {
    a[0].times(v[0]).plus(a[1].times(v[1])).plus(a[2].times(v[2])).plus(a[3].times(v[3])).plus(
        a[4].times(v[4]),
    )
}

/// The summed formula over the five value columns and `eq`.
pub open spec fn summand<F: Field>(a: Seq<F>) -> Formula<F> {
    formula::times(
        formula::col(5),
        formula::plus(
            formula::plus(
                formula::plus(
                    formula::plus(
                        formula::times(formula::con(a[0]), formula::col(0)),
                        formula::times(formula::con(a[1]), formula::col(1)),
                    ),
                    formula::times(formula::con(a[2]), formula::col(2)),
                ),
                formula::times(formula::con(a[3]), formula::col(3)),
            ),
            formula::times(formula::con(a[4]), formula::col(4)),
        ),
    )
}

/// The table the prover sums.
pub open spec fn table<F: Field>(a: Seq<F>, r: Seq<F>, columns: Seq<Seq<F>>) -> SumTable<F> {
    SumTable { columns: columns.push(poly::eq_table(r)), formula: summand(a) }
}

/// The claims after the first `n` reduced openings are recorded at the reversed challenges.
pub open spec fn cached<F: Field>(acc: Claims<F>, xs: Seq<F>, v: Seq<F>, n: int) -> Claims<F>
    decreases n,
{
    if n <= 0 {
        acc
    } else {
        cached(acc, xs, v, n - 1).insert(
            ids(SumcheckId::InstructionClaimReduction)[n - 1],
            (xs.reverse(), v[n - 1]),
        )
    }
}

/// The claim the reduced openings must satisfy.
pub open spec fn output<F: Field>(a: Seq<F>, r: Seq<F>, acc: Claims<F>, xs: Seq<F>) -> F {
    poly::eq_mle(xs.reverse(), r).times(
        batch(a, values(acc, SumcheckId::InstructionClaimReduction)),
    )
}

impl<F: Field> InstructionLookupsClaimReductionParams<F> {
    /// Draw the batching challenge and read the point of the input claims.
    pub fn new<T: Challenge<F>>(
        n_cycle_vars: usize,
        accumulator: &Openings<F>,
        transcript: &mut T,
    ) -> (r: Self)
        requires
            accumulator@.contains_key(
                accumulator::virt(VirtualPolynomial::LookupOutput, SumcheckId::SpartanOuter),
            ),
        ensures
            r.coeffs@ == powers(old(transcript).state().next()),
            r.n_cycle_vars == n_cycle_vars,
            r.r_spartan@ == accumulator@[accumulator::virt(
                VirtualPolynomial::LookupOutput,
                SumcheckId::SpartanOuter,
            )].0,
            final(transcript).state() == old(transcript).state().squeeze(),
    {
        let gamma: F = transcript.challenge();
        let g2: F = gamma.mul(gamma);
        let coeffs: [F; 5] = [field::one(), gamma, g2, g2.mul(gamma), g2.mul(g2)];
        assert(coeffs@ =~= powers(gamma));
        let (r_spartan, _) = accumulator.get_virtual_polynomial_opening(
            VirtualPolynomial::LookupOutput,
            SumcheckId::SpartanOuter,
        );
        InstructionLookupsClaimReductionParams { coeffs, n_cycle_vars, r_spartan }
    }

    /// The batched input claim.
    pub fn input_claim(&self, accumulator: &Openings<F>) -> (r: F)
        requires
            has_all(accumulator@, SumcheckId::SpartanOuter),
        ensures
            r == batch(self.coeffs@, values(accumulator@, SumcheckId::SpartanOuter)),
    {
        self.batch_claims(accumulator, SumcheckId::SpartanOuter)
    }

    fn batch_claims(&self, accumulator: &Openings<F>, id: SumcheckId) -> (r: F)
        requires
            has_all(accumulator@, id),
        ensures
            r == batch(self.coeffs@, values(accumulator@, id)),
    {
        proof {
            let all = ids(id);
            assert(accumulator@.contains_key(all[0]) && accumulator@.contains_key(all[1]));
            assert(accumulator@.contains_key(all[2]) && accumulator@.contains_key(all[3]));
            assert(accumulator@.contains_key(all[4]));
        }
        let g: [F; 5] = self.coeffs;
        let v0: F = accumulator.virtual_claim(VirtualPolynomial::LookupOutput, id);
        let v1: F = accumulator.virtual_claim(VirtualPolynomial::LeftLookupOperand, id);
        let v2: F = accumulator.virtual_claim(VirtualPolynomial::RightLookupOperand, id);
        let v3: F = accumulator.virtual_claim(VirtualPolynomial::LeftInstructionInput, id);
        let v4: F = accumulator.virtual_claim(VirtualPolynomial::RightInstructionInput, id);
        g[0].mul(v0).add(g[1].mul(v1)).add(g[2].mul(v2)).add(g[3].mul(v3)).add(g[4].mul(v4))
    }
}

/// The reduction of the five lookup claims to one point.
pub struct InstructionLookupsClaimReduction<F> {
    pub params: InstructionLookupsClaimReductionParams<F>,
    pub sum: VirtualSum<F>,
}

impl<F: Field> InstructionLookupsClaimReduction<F> {
    /// The prover's instance over the five value columns, in the order of the powers.
    pub fn new_prover(
        params: InstructionLookupsClaimReductionParams<F>,
        columns: Vec<MultilinearPolynomial<F>>,
    ) -> (r: Self)
        requires
            columns@.len() == 5,
            pow2(params.r_spartan@.len()) <= usize::MAX,
        ensures
            r.params == params,
            r.sum@ == table(
                params.coeffs@,
                params.r_spartan@,
                columns@.map_values(|p: MultilinearPolynomial<F>| p@),
            ),
    {
        let mut all: Vec<MultilinearPolynomial<F>> = columns;
        all.push(MultilinearPolynomial::new(poly::eq_evals(&params.r_spartan)));
        let sum: VirtualSum<F> = VirtualSum::new(
            all,
            Formula::column(5)
                .product(
                    Formula::constant(params.coeffs[0])
                        .product(Formula::column(0))
                        .sum(Formula::constant(params.coeffs[1]).product(Formula::column(1)))
                        .sum(Formula::constant(params.coeffs[2]).product(Formula::column(2)))
                        .sum(Formula::constant(params.coeffs[3]).product(Formula::column(3)))
                        .sum(Formula::constant(params.coeffs[4]).product(Formula::column(4))),
                ),
        );
        assert(sum@.columns =~= table(
            params.coeffs@,
            params.r_spartan@,
            columns@.map_values(|p: MultilinearPolynomial<F>| p@),
        ).columns);
        InstructionLookupsClaimReduction { params, sum }
    }

    /// The verifier's instance, which holds no columns.
    pub fn new_verifier(params: InstructionLookupsClaimReductionParams<F>) -> (r: Self)
        ensures
            r.params == params,
    {
        InstructionLookupsClaimReduction { params, sum: VirtualSum::empty() }
    }

    /// One round per cycle variable.
    pub fn num_rounds(&self) -> (r: usize)
        ensures
            r == self.params.n_cycle_vars,
    {
        self.params.n_cycle_vars
    }

    /// Record the five reduced openings of the fully bound columns.
    pub fn cache_openings(&self, accumulator: &mut Openings<F>, challenges: &[F])
        requires
            self.sum@.columns.len() == 6,
            forall|c: int| 0 <= c < 6 ==> (#[trigger] self.sum@.columns[c]).len() > 0,
        ensures
            final(accumulator)@ == cached(
                old(accumulator)@,
                challenges@,
                self.sum@.columns.map_values(|p: Seq<F>| p[0]),
                5,
            ),
    {
        let id: SumcheckId = SumcheckId::InstructionClaimReduction;
        proof {
            reveal_with_fuel(cached, 6);
        }
        accumulator.append_virtual(
            VirtualPolynomial::LookupOutput,
            id,
            poly::reversed(challenges),
            self.sum.bound_value(0),
        );
        accumulator.append_virtual(
            VirtualPolynomial::LeftLookupOperand,
            id,
            poly::reversed(challenges),
            self.sum.bound_value(1),
        );
        accumulator.append_virtual(
            VirtualPolynomial::RightLookupOperand,
            id,
            poly::reversed(challenges),
            self.sum.bound_value(2),
        );
        accumulator.append_virtual(
            VirtualPolynomial::LeftInstructionInput,
            id,
            poly::reversed(challenges),
            self.sum.bound_value(3),
        );
        accumulator.append_virtual(
            VirtualPolynomial::RightInstructionInput,
            id,
            poly::reversed(challenges),
            self.sum.bound_value(4),
        );
    }

    /// The claim the reduced openings must satisfy.
    pub fn expected_output_claim(&self, accumulator: &Openings<F>, challenges: &[F]) -> (r: F)
        requires
            has_all(accumulator@, SumcheckId::InstructionClaimReduction),
            challenges@.len() == self.params.r_spartan@.len(),
        ensures
            r == output(self.params.coeffs@, self.params.r_spartan@, accumulator@, challenges@),
    {
        let point: Vec<F> = poly::reversed(challenges);
        let eq: F = poly::eq_at(&point, &self.params.r_spartan);
        eq.mul(self.params.batch_claims(accumulator, SumcheckId::InstructionClaimReduction))
    }
}

/// The table is shaped: its columns have one entry for every point, and the degree of its formula is
/// the one that the verifier allows.
pub proof fn law_table_shaped<F: Field>(a: Seq<F>, r: Seq<F>, columns: Seq<Seq<F>>)
    requires
        a.len() == 5,
        columns.len() == 5,
        forall|c: int| 0 <= c < 5 ==> (#[trigger] columns[c]).len() == pow2(r.len()),
    ensures
        table(a, r, columns).shaped(r.len()),
        table(a, r, columns).formula.degree() == DEGREE,
        field::all_valid(a) && (forall|c: int| 0 <= c < 5 ==> field::all_valid(#[trigger] columns[c]))
            ==> table(a, r, columns).canonical(),
{
    reveal_with_fuel(Formula::reads, 8);
    reveal_with_fuel(Formula::degree, 8);
    reveal_with_fuel(Formula::canonical, 8);
    poly::lemma_eq_table_valid(r);
    let t = table(a, r, columns);
    assert forall|c: int| 0 <= c < 6 implies (#[trigger] t.columns[c]).len() == pow2(r.len()) by {
        if c < 5 {
            assert(t.columns[c] == columns[c]);
        }
    }
    if field::all_valid(a) && (forall|c: int| 0 <= c < 5 ==> field::all_valid(#[trigger] columns[c])) {
        assert(a[0].valid() && a[1].valid() && a[2].valid() && a[3].valid() && a[4].valid());
        assert forall|c: int| 0 <= c < 6 implies field::all_valid(#[trigger] t.columns[c]) by {
            if c < 5 {
                assert(t.columns[c] == columns[c]);
            }
        }
    }
}

/// The sum over the cycles is the batch of the columns' multilinear extensions at `r`.
pub proof fn law_total<F: Field>(a: Seq<F>, r: Seq<F>, columns: Seq<Seq<F>>)
    requires
        a.len() == 5,
        columns.len() == 5,
        forall|c: int| 0 <= c < 5 ==> (#[trigger] columns[c]).len() == pow2(r.len()),
    ensures
        table(a, r, columns).total() == batch(
            a,
            columns.map_values(|p: Seq<F>| poly::mle(p, r)),
        ),
{
    let t = table(a, r, columns);
    let n = pow2(r.len());
    let scaled = |c: int| Seq::new(n, |i: int| a[c].times(columns[c][i]));
    let s1 = Seq::new(n, |i: int| scaled(0)[i].plus(scaled(1)[i]));
    let s2 = Seq::new(n, |i: int| s1[i].plus(scaled(2)[i]));
    let s3 = Seq::new(n, |i: int| s2[i].plus(scaled(3)[i]));
    let s4 = Seq::new(n, |i: int| s3[i].plus(scaled(4)[i]));
    let f = |i: int| t.formula.value(t.row(i));
    let e = |i: int| poly::eq_table(r)[i].times(s4[i]);
    assert(columns[0].len() == n && columns[1].len() == n && columns[2].len() == n);
    assert(columns[3].len() == n && columns[4].len() == n);
    assert(t.size() == n) by {
        assert(t.columns[0] == columns[0]);
    }
    assert forall|i: int| 0 <= i < n implies #[trigger] f(i) == e(i) by {
        reveal_with_fuel(Formula::value, 8);
        assert(t.row(i)[5] == poly::eq_table(r)[i]);
    }
    sums::lemma_sum_ext(n as int, f, e);
    poly::lemma_sum_eq_times(r, s4);
    poly::lemma_mle_scale(a[0], columns[0], scaled(0), r);
    poly::lemma_mle_scale(a[1], columns[1], scaled(1), r);
    poly::lemma_mle_scale(a[2], columns[2], scaled(2), r);
    poly::lemma_mle_scale(a[3], columns[3], scaled(3), r);
    poly::lemma_mle_scale(a[4], columns[4], scaled(4), r);
    poly::lemma_mle_plus(scaled(0), scaled(1), s1, r);
    poly::lemma_mle_plus(s1, scaled(2), s2, r);
    poly::lemma_mle_plus(s2, scaled(3), s3, r);
    poly::lemma_mle_plus(s3, scaled(4), s4, r);
}

/// The openings cached by the prover satisfy the output claim: it is the value to which the
/// sumcheck reduces.
pub proof fn law_output<F: Field>(
    a: Seq<F>,
    r: Seq<F>,
    columns: Seq<Seq<F>>,
    acc: Claims<F>,
    xs: Seq<F>,
)
    requires
        columns.len() == 5,
        xs.len() == r.len(),
    ensures
        output(
            a,
            r,
            cached(acc, xs, columns.map_values(|p: Seq<F>| poly::mle(p, xs.reverse())), 5),
            xs,
        ) == summand(a).value(sumcheck::final_row(table(a, r, columns).columns, xs)),
{
    reveal_with_fuel(Formula::value, 8);
    reveal_with_fuel(cached, 6);
    poly::lemma_mle_eq_table(r, xs.reverse());
    poly::lemma_eq_mle_comm(r, xs.reverse());
}

/// Recorded claims with another batch have another output claim, unless their weight cancels the
/// difference.
pub proof fn law_changed_openings<F: Field>(
    a: Seq<F>,
    r: Seq<F>,
    acc: Claims<F>,
    other: Claims<F>,
    xs: Seq<F>,
)
    requires
        poly::eq_mle(xs.reverse(), r).times(
            batch(a, values(other, SumcheckId::InstructionClaimReduction)).minus(
                batch(a, values(acc, SumcheckId::InstructionClaimReduction)),
            ),
        ) != F::of_int(0),
    ensures
        output(a, r, other, xs) != output(a, r, acc, xs),
{
    field::lemma_weighted_apart(
        poly::eq_mle(xs.reverse(), r),
        batch(a, values(acc, SumcheckId::InstructionClaimReduction)),
        batch(a, values(other, SumcheckId::InstructionClaimReduction)),
    );
}

} // verus!
