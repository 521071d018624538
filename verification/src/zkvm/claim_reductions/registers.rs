//! Registers claim reduction.
//!
//! The three register-value claims opened at the Spartan point `r` are reduced to one point:
//! `RdWriteValue(r) + g Rs1Value(r) + g^2 Rs2Value(r)` is the sum over all cycles `j` of
//! `eq(r, j) (RdWriteValue(j) + g Rs1Value(j) + g^2 Rs2Value(j))`.

use crate::field;
use crate::field::Field;
use crate::framework::accumulator;
use crate::framework::accumulator::{Claims, Openings, SumcheckId, VirtualPolynomial};
use crate::framework::formula;
use crate::framework::formula::Formula;
use crate::framework::poly;
use crate::framework::poly::MultilinearPolynomial;
use crate::framework::sumcheck;
use crate::framework::sumcheck::{SumTable, VirtualSum};
use crate::framework::sums;
use crate::framework::transcript::Challenge;
use vstd::arithmetic::power2::pow2;
use vstd::prelude::*;

verus! {

/// The degree of the summed formula.
pub const DEGREE: usize = 2;

/// The batching challenge and the point of the input claims.
#[derive(Debug)]
pub struct RegistersClaimReductionParams<F> {
    pub gamma: F,
    pub gamma_sqr: F,
    pub n_cycle_vars: usize,
    pub r_spartan: Vec<F>,
}

/// `a + g b + h c`.
pub open spec fn batch<F: Field>(g: F, h: F, a: F, b: F, c: F) -> F {
    a.plus(g.times(b)).plus(h.times(c))
}

/// The batched input claim.
pub open spec fn input<F: Field>(g: F, h: F, acc: Claims<F>) -> F {
    batch(
        g,
        h,
        acc[accumulator::virt(VirtualPolynomial::RdWriteValue, SumcheckId::SpartanOuter)].1,
        acc[accumulator::virt(VirtualPolynomial::Rs1Value, SumcheckId::SpartanOuter)].1,
        acc[accumulator::virt(VirtualPolynomial::Rs2Value, SumcheckId::SpartanOuter)].1,
    )
}

/// The claims the input is batched from were recorded.
pub open spec fn has_input<F: Field>(acc: Claims<F>) -> bool {
    &&& acc.contains_key(
        accumulator::virt(VirtualPolynomial::RdWriteValue, SumcheckId::SpartanOuter),
    )
    &&& acc.contains_key(accumulator::virt(VirtualPolynomial::Rs1Value, SumcheckId::SpartanOuter))
    &&& acc.contains_key(accumulator::virt(VirtualPolynomial::Rs2Value, SumcheckId::SpartanOuter))
}

/// The summed formula over the columns `eq, rd, rs1, rs2`.
pub open spec fn summand<F: Field>(g: F, h: F) -> Formula<F> {
    formula::times(
        formula::col(0),
        formula::plus(
            formula::plus(formula::col(1), formula::times(formula::con(g), formula::col(2))),
            formula::times(formula::con(h), formula::col(3)),
        ),
    )
}

/// The table the prover sums.
pub open spec fn table<F: Field>(
    g: F,
    h: F,
    r: Seq<F>,
    rd: Seq<F>,
    rs1: Seq<F>,
    rs2: Seq<F>,
) -> SumTable<F> {
    SumTable { columns: seq![poly::eq_table(r), rd, rs1, rs2], formula: summand(g, h) }
}

/// The claims after the three reduced openings are recorded at the reversed challenges.
pub open spec fn cached<F: Field>(acc: Claims<F>, xs: Seq<F>, rd: F, rs1: F, rs2: F) -> Claims<F> {
    let point = xs.reverse();
    let id = SumcheckId::RegistersClaimReduction;
    acc.insert(accumulator::virt(VirtualPolynomial::RdWriteValue, id), (point, rd)).insert(
        accumulator::virt(VirtualPolynomial::Rs1Value, id),
        (point, rs1),
    ).insert(accumulator::virt(VirtualPolynomial::Rs2Value, id), (point, rs2))
}

/// The claim the reduced openings must satisfy.
pub open spec fn output<F: Field>(g: F, h: F, r: Seq<F>, acc: Claims<F>, xs: Seq<F>) -> F {
    let id = SumcheckId::RegistersClaimReduction;
    poly::eq_mle(xs.reverse(), r).times(
        batch(
            g,
            h,
            acc[accumulator::virt(VirtualPolynomial::RdWriteValue, id)].1,
            acc[accumulator::virt(VirtualPolynomial::Rs1Value, id)].1,
            acc[accumulator::virt(VirtualPolynomial::Rs2Value, id)].1,
        ),
    )
}

/// The reduced openings were recorded.
pub open spec fn has_output<F: Field>(acc: Claims<F>) -> bool {
    let id = SumcheckId::RegistersClaimReduction;
    &&& acc.contains_key(accumulator::virt(VirtualPolynomial::RdWriteValue, id))
    &&& acc.contains_key(accumulator::virt(VirtualPolynomial::Rs1Value, id))
    &&& acc.contains_key(accumulator::virt(VirtualPolynomial::Rs2Value, id))
}

impl<F: Field> RegistersClaimReductionParams<F> {
    /// Draw the batching challenge and read the point of the input claims.
    pub fn new<T: Challenge<F>>(
        n_cycle_vars: usize,
        accumulator: &Openings<F>,
        transcript: &mut T,
    ) -> (r: Self)
        requires
            accumulator@.contains_key(
                accumulator::virt(VirtualPolynomial::LookupOutput, SumcheckId::SpartanOuter),
            ),
        ensures
            r.gamma == old(transcript).state().next(),
            r.gamma_sqr == r.gamma.times(r.gamma),
            r.n_cycle_vars == n_cycle_vars,
            r.r_spartan@ == accumulator@[accumulator::virt(
                VirtualPolynomial::LookupOutput,
                SumcheckId::SpartanOuter,
            )].0,
            final(transcript).state() == old(transcript).state().squeeze(),
    {
        let gamma: F = transcript.challenge();
        let gamma_sqr: F = gamma.mul(gamma);
        let (r_spartan, _) = accumulator.get_virtual_polynomial_opening(
            VirtualPolynomial::LookupOutput,
            SumcheckId::SpartanOuter,
        );
        RegistersClaimReductionParams { gamma, gamma_sqr, n_cycle_vars, r_spartan }
    }

    /// The batched input claim.
    pub fn input_claim(&self, accumulator: &Openings<F>) -> (r: F)
        requires
            has_input(accumulator@),
        ensures
            r == input(self.gamma, self.gamma_sqr, accumulator@),
    {
        let id: SumcheckId = SumcheckId::SpartanOuter;
        let rd: F = accumulator.virtual_claim(VirtualPolynomial::RdWriteValue, id);
        let rs1: F = accumulator.virtual_claim(VirtualPolynomial::Rs1Value, id);
        let rs2: F = accumulator.virtual_claim(VirtualPolynomial::Rs2Value, id);
        rd.add(self.gamma.mul(rs1)).add(self.gamma_sqr.mul(rs2))
    }
}

/// The reduction of the three register-value claims to one point.
pub struct RegistersClaimReduction<F> {
    pub params: RegistersClaimReductionParams<F>,
    pub sum: VirtualSum<F>,
}

impl<F: Field> RegistersClaimReduction<F> {
    /// The prover's instance over the three value columns.
    pub fn new_prover(
        params: RegistersClaimReductionParams<F>,
        rd_write_value: Vec<F>,
        rs1_value: Vec<F>,
        rs2_value: Vec<F>,
    ) -> (r: Self)
        requires
            pow2(params.r_spartan@.len()) <= usize::MAX,
        ensures
            r.params == params,
            r.sum@ == table(
                params.gamma,
                params.gamma_sqr,
                params.r_spartan@,
                rd_write_value@,
                rs1_value@,
                rs2_value@,
            ),
    {
        let eq: Vec<F> = poly::eq_evals(&params.r_spartan);
        let mut columns: Vec<MultilinearPolynomial<F>> = Vec::new();
        columns.push(MultilinearPolynomial::new(eq));
        columns.push(MultilinearPolynomial::new(rd_write_value));
        columns.push(MultilinearPolynomial::new(rs1_value));
        columns.push(MultilinearPolynomial::new(rs2_value));
        let values: Formula<F> = Formula::column(1).sum(
            Formula::constant(params.gamma).product(Formula::column(2)),
        ).sum(Formula::constant(params.gamma_sqr).product(Formula::column(3)));
        let sum: VirtualSum<F> = VirtualSum::new(columns, Formula::column(0).product(values));
        assert(sum@.columns =~= seq![
            poly::eq_table(params.r_spartan@),
            rd_write_value@,
            rs1_value@,
            rs2_value@,
        ]);
        RegistersClaimReduction { params, sum }
    }

    /// The verifier's instance, which holds no columns.
    pub fn new_verifier(params: RegistersClaimReductionParams<F>) -> (r: Self)
        ensures
            r.params == params,
    {
        RegistersClaimReduction { params, sum: VirtualSum::empty() }
    }

    /// One round per cycle variable.
    pub fn num_rounds(&self) -> (r: usize)
        ensures
            r == self.params.n_cycle_vars,
    {
        self.params.n_cycle_vars
    }

    /// The batched input claim.
    pub fn input_claim(&self, accumulator: &Openings<F>) -> (r: F)
        requires
            has_input(accumulator@),
        ensures
            r == input(self.params.gamma, self.params.gamma_sqr, accumulator@),
    {
        self.params.input_claim(accumulator)
    }

    /// Record the three reduced openings of the fully bound columns.
    pub fn cache_openings(&self, accumulator: &mut Openings<F>, challenges: &[F])
        requires
            self.sum@.columns.len() == 4,
            forall|c: int| 0 <= c < 4 ==> (#[trigger] self.sum@.columns[c]).len() > 0,
        ensures
            final(accumulator)@ == cached(
                old(accumulator)@,
                challenges@,
                self.sum@.columns[1][0],
                self.sum@.columns[2][0],
                self.sum@.columns[3][0],
            ),
    {
        let id: SumcheckId = SumcheckId::RegistersClaimReduction;
        let rd: F = self.sum.bound_value(1);
        let rs1: F = self.sum.bound_value(2);
        let rs2: F = self.sum.bound_value(3);
        accumulator.append_virtual(
            VirtualPolynomial::RdWriteValue,
            id,
            poly::reversed(challenges),
            rd,
        );
        accumulator.append_virtual(VirtualPolynomial::Rs1Value, id, poly::reversed(challenges), rs1);
        accumulator.append_virtual(VirtualPolynomial::Rs2Value, id, poly::reversed(challenges), rs2);
    }

    /// The claim the reduced openings must satisfy.
    pub fn expected_output_claim(&self, accumulator: &Openings<F>, challenges: &[F]) -> (r: F)
        requires
            has_output(accumulator@),
            challenges@.len() == self.params.r_spartan@.len(),
        ensures
            r == output(
                self.params.gamma,
                self.params.gamma_sqr,
                self.params.r_spartan@,
                accumulator@,
                challenges@,
            ),
    {
        let id: SumcheckId = SumcheckId::RegistersClaimReduction;
        let point: Vec<F> = poly::reversed(challenges);
        let eq: F = poly::eq_at(&point, &self.params.r_spartan);
        let rd: F = accumulator.virtual_claim(VirtualPolynomial::RdWriteValue, id);
        let rs1: F = accumulator.virtual_claim(VirtualPolynomial::Rs1Value, id);
        let rs2: F = accumulator.virtual_claim(VirtualPolynomial::Rs2Value, id);
        eq.mul(rd.add(self.params.gamma.mul(rs1)).add(self.params.gamma_sqr.mul(rs2)))
    }
}

/// The table is shaped: its columns have one entry for every point, and the degree of its formula is
/// the one that the verifier allows.
pub proof fn law_table_shaped<F: Field>(
    g: F,
    h: F,
    r: Seq<F>,
    rd: Seq<F>,
    rs1: Seq<F>,
    rs2: Seq<F>,
)
    requires
        rd.len() == pow2(r.len()),
        rs1.len() == pow2(r.len()),
        rs2.len() == pow2(r.len()),
    ensures
        table(g, h, r, rd, rs1, rs2).shaped(r.len()),
        table(g, h, r, rd, rs1, rs2).formula.degree() == DEGREE,
        g.valid() && h.valid() && field::all_valid(rd) && field::all_valid(rs1)
            && field::all_valid(rs2) ==> table(g, h, r, rd, rs1, rs2).canonical(),
{
    reveal_with_fuel(Formula::reads, 6);
    reveal_with_fuel(Formula::degree, 6);
    reveal_with_fuel(Formula::canonical, 6);
    poly::lemma_eq_table_valid(r);
}

/// The sum over the cycles is the batch of the columns' multilinear extensions at `r`.
pub proof fn law_total<F: Field>(g: F, h: F, r: Seq<F>, rd: Seq<F>, rs1: Seq<F>, rs2: Seq<F>)
    requires
        rd.len() == pow2(r.len()),
        rs1.len() == pow2(r.len()),
        rs2.len() == pow2(r.len()),
    ensures
        table(g, h, r, rd, rs1, rs2).total() == batch(
            g,
            h,
            poly::mle(rd, r),
            poly::mle(rs1, r),
            poly::mle(rs2, r),
        ),
{
    let t = table(g, h, r, rd, rs1, rs2);
    let n = pow2(r.len());
    let gs = Seq::new(n, |i: int| g.times(rs1[i]));
    let hs = Seq::new(n, |i: int| h.times(rs2[i]));
    let ab = Seq::new(n, |i: int| rd[i].plus(gs[i]));
    let s = Seq::new(n, |i: int| ab[i].plus(hs[i]));
    let f = |i: int| t.formula.value(t.row(i));
    let e = |i: int| poly::eq_table(r)[i].times(s[i]);
    assert forall|i: int| 0 <= i < n implies #[trigger] f(i) == e(i) by {
        reveal_with_fuel(Formula::value, 6);
    }
    sums::lemma_sum_ext(n as int, f, e);
    poly::lemma_sum_eq_times(r, s);
    poly::lemma_mle_scale(g, rs1, gs, r);
    poly::lemma_mle_scale(h, rs2, hs, r);
    poly::lemma_mle_plus(rd, gs, ab, r);
    poly::lemma_mle_plus(ab, hs, s, r);
}

/// The openings cached by the prover satisfy the output claim: it is the value to which the
/// sumcheck reduces.
pub proof fn law_output<F: Field>(
    g: F,
    h: F,
    r: Seq<F>,
    rd: Seq<F>,
    rs1: Seq<F>,
    rs2: Seq<F>,
    acc: Claims<F>,
    xs: Seq<F>,
)
    requires
        xs.len() == r.len(),
    ensures
        output(
            g,
            h,
            r,
            cached(
                acc,
                xs,
                poly::mle(rd, xs.reverse()),
                poly::mle(rs1, xs.reverse()),
                poly::mle(rs2, xs.reverse()),
            ),
            xs,
        ) == summand(g, h).value(
            sumcheck::final_row(table(g, h, r, rd, rs1, rs2).columns, xs),
        ),
{
    reveal_with_fuel(Formula::value, 6);
    poly::lemma_mle_eq_table(r, xs.reverse());
    poly::lemma_eq_mle_comm(r, xs.reverse());
}

/// Changed reduced openings change the output claim, unless their weight cancels the difference of
/// the batches.
pub proof fn law_changed_openings<F: Field>(
    g: F,
    h: F,
    r: Seq<F>,
    acc: Claims<F>,
    xs: Seq<F>,
    a: (F, F, F),
    b: (F, F, F),
)
    requires
        poly::eq_mle(xs.reverse(), r).times(
            batch(g, h, b.0, b.1, b.2).minus(batch(g, h, a.0, a.1, a.2)),
        ) != F::of_int(0),
    ensures
        output(g, h, r, cached(acc, xs, b.0, b.1, b.2), xs) != output(
            g,
            h,
            r,
            cached(acc, xs, a.0, a.1, a.2),
            xs,
        ),
{
    field::lemma_weighted_apart(
        poly::eq_mle(xs.reverse(), r),
        batch(g, h, a.0, a.1, a.2),
        batch(g, h, b.0, b.1, b.2),
    );
}

} // verus!
