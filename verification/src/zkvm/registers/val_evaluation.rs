//! Register value evaluation.
//!
//! The value of a register before a cycle is the sum of the increments written to it earlier:
//! `Val(r_address, r_cycle)` is the sum over all cycles `j` of
//! `inc(j) wa(r_address, j) LT(j, r_cycle)`.

use crate::field;
use crate::field::Field;
use crate::framework::accumulator;
use crate::framework::accumulator::{
    Claims, CommittedPolynomial, OpeningId, Openings, SumcheckId, VirtualPolynomial,
};
use crate::framework::formula;
use crate::framework::formula::Formula;
use crate::framework::poly;
use crate::framework::poly::MultilinearPolynomial;
use crate::framework::sumcheck;
use crate::framework::sumcheck::{SumTable, VirtualSum};
use crate::framework::sums;
use vstd::arithmetic::power2::pow2;
use vstd::prelude::*;

verus! {

/// The degree of the summed formula.
pub const DEGREE: usize = 3;

/// The address and cycle parts of the point of the value claim.
#[derive(Debug)]
pub struct RegistersValEvaluationParams<F> {
    pub r_address: Vec<F>,
    pub r_cycle: Vec<F>,
}

/// The name of the value claim.
pub open spec fn val_id() -> OpeningId {
    accumulator::virt(VirtualPolynomial::RegistersVal, SumcheckId::RegistersReadWriteChecking)
}

/// The name of the reduced increment claim.
pub open spec fn inc_id() -> OpeningId {
    accumulator::comm(CommittedPolynomial::RdInc, SumcheckId::RegistersValEvaluation)
}

/// The name of the reduced write claim.
pub open spec fn wa_id() -> OpeningId {
    accumulator::virt(VirtualPolynomial::RdWa, SumcheckId::RegistersValEvaluation)
}

/// The summed formula over the columns `inc, wa, lt`.
pub open spec fn summand<F: Field>() -> Formula<F> {
    formula::times(formula::times(formula::col(0), formula::col(1)), formula::col(2))
}

/// The table the prover sums.
pub open spec fn table<F: Field>(r: Seq<F>, inc: Seq<F>, wa: Seq<F>) -> SumTable<F> {
    SumTable {
        columns: seq![inc, wa, poly::lt_table(r)],
        formula: summand(),
    }
}

/// The claims after the reduced openings are recorded.
pub open spec fn cached<F: Field>(
    acc: Claims<F>,
    r_address: Seq<F>,
    xs: Seq<F>,
    inc: F,
    wa: F,
) -> Claims<F> {
    acc.insert(inc_id(), (xs.reverse(), inc)).insert(wa_id(), (r_address + xs.reverse(), wa))
}

/// The claim the reduced openings must satisfy.
pub open spec fn output<F: Field>(r: Seq<F>, acc: Claims<F>, xs: Seq<F>) -> F {
    acc[inc_id()].1.times(acc[wa_id()].1).times(poly::lt_mle(xs.reverse(), r))
}

impl<F: Field> RegistersValEvaluationParams<F> {
    /// Split the point of the value claim after `log_k` address coordinates.
    pub fn new(accumulator: &Openings<F>, log_k: usize) -> (r: Self)
        requires
            accumulator@.contains_key(val_id()),
            accumulator@[val_id()].0.len() >= log_k,
        ensures
            r.r_address@ == accumulator@[val_id()].0.take(log_k as int),
            r.r_cycle@ == accumulator@[val_id()].0.skip(log_k as int),
    {
        let (point, _) = accumulator.get_virtual_polynomial_opening(
            VirtualPolynomial::RegistersVal,
            SumcheckId::RegistersReadWriteChecking,
        );
        RegistersValEvaluationParams {
            r_address: poly::range(&point, 0, log_k),
            r_cycle: poly::range(&point, log_k, point.len()),
        }
    }

    /// The input claim: the value claim itself.
    pub fn input_claim(accumulator: &Openings<F>) -> (r: F)
        requires
            accumulator@.contains_key(val_id()),
        ensures
            r == accumulator@[val_id()].1,
    {
        accumulator.virtual_claim(
            VirtualPolynomial::RegistersVal,
            SumcheckId::RegistersReadWriteChecking,
        )
    }
}

/// The register value-evaluation instance.
pub struct RegistersValEvaluation<F> {
    pub params: RegistersValEvaluationParams<F>,
    pub sum: VirtualSum<F>,
}

impl<F: Field> RegistersValEvaluation<F> {
    /// The prover's instance over the increment column and the write column at the address point.
    pub fn new_prover(params: RegistersValEvaluationParams<F>, inc: Vec<F>, wa: Vec<F>) -> (r: Self)
        requires
            pow2(params.r_cycle@.len()) <= usize::MAX,
        ensures
            r.params == params,
            r.sum@ == table(params.r_cycle@, inc@, wa@),
    {
        let lt: Vec<F> = poly::lt_evals(&params.r_cycle);
        let mut columns: Vec<MultilinearPolynomial<F>> = Vec::new();
        columns.push(MultilinearPolynomial::new(inc));
        columns.push(MultilinearPolynomial::new(wa));
        columns.push(MultilinearPolynomial::new(lt));
        let sum: VirtualSum<F> = VirtualSum::new(
            columns,
            Formula::column(0).product(Formula::column(1)).product(Formula::column(2)),
        );
        assert(sum@.columns =~= table(params.r_cycle@, inc@, wa@).columns);
        RegistersValEvaluation { params, sum }
    }

    /// The verifier's instance, which holds no columns to sum.
    pub fn new_verifier(params: RegistersValEvaluationParams<F>) -> (r: Self)
        ensures
            r.params == params,
    {
        Self { params, sum: VirtualSum::empty() }
    }

    /// One round per cycle variable.
    pub fn num_rounds(&self) -> (r: usize)
        ensures
            r == self.params.r_cycle@.len(),
    {
        self.params.r_cycle.len()
    }

    /// Record the reduced openings of the fully bound columns.
    pub fn cache_openings(&self, accumulator: &mut Openings<F>, challenges: &[F])
        requires
            self.sum@.columns.len() == 3,
            forall|c: int| 0 <= c < 3 ==> (#[trigger] self.sum@.columns[c]).len() > 0,
        ensures
            final(accumulator)@ == cached(
                old(accumulator)@,
                self.params.r_address@,
                challenges@,
                self.sum@.columns[0][0],
                self.sum@.columns[1][0],
            ),
    {
        let inc: F = self.sum.bound_value(0);
        let wa: F = self.sum.bound_value(1);
        let r_cycle: Vec<F> = poly::reversed(challenges);
        let full: Vec<F> = poly::concat(&self.params.r_address, &r_cycle);
        accumulator.append_dense(
            CommittedPolynomial::RdInc,
            SumcheckId::RegistersValEvaluation,
            r_cycle,
            inc,
        );
        accumulator.append_virtual(
            VirtualPolynomial::RdWa,
            SumcheckId::RegistersValEvaluation,
            full,
            wa,
        );
    }

    /// The claim the reduced openings must satisfy.
    pub fn expected_output_claim(&self, accumulator: &Openings<F>, challenges: &[F]) -> (r: F)
        requires
            accumulator@.contains_key(inc_id()),
            accumulator@.contains_key(wa_id()),
            challenges@.len() == self.params.r_cycle@.len(),
        ensures
            r == output(self.params.r_cycle@, accumulator@, challenges@),
    {
        let point: Vec<F> = poly::reversed(challenges);
        let lt_eval: F = poly::lt_at(&point, &self.params.r_cycle);
        let inc: F = accumulator.committed_claim(
            CommittedPolynomial::RdInc,
            SumcheckId::RegistersValEvaluation,
        );
        let wa: F = accumulator.virtual_claim(
            VirtualPolynomial::RdWa,
            SumcheckId::RegistersValEvaluation,
        );
        inc.mul(wa).mul(lt_eval)
    }
}

/// The table is shaped: its columns have one entry for every point, and the degree of its formula is
/// the one that the verifier allows.
pub proof fn law_table_shaped<F: Field>(r: Seq<F>, inc: Seq<F>, wa: Seq<F>)
    requires
        inc.len() == pow2(r.len()),
        wa.len() == pow2(r.len()),
    ensures
        table(r, inc, wa).shaped(r.len()),
        table(r, inc, wa).formula.degree() == DEGREE,
        field::all_valid(inc) && field::all_valid(wa) ==> table(r, inc, wa).canonical(),
{
    reveal_with_fuel(Formula::reads, 8);
    reveal_with_fuel(Formula::degree, 8);
    reveal_with_fuel(Formula::canonical, 8);
    poly::lemma_lt_table_valid(r);
}

/// The summed relation: increments times writes times the less-than indicator.
pub proof fn law_total<F: Field>(r: Seq<F>, inc: Seq<F>, wa: Seq<F>)
    ensures
        table(r, inc, wa).total() == sums::sum(
            inc.len() as int,
            |j: int| inc[j].times(wa[j]).times(poly::lt_table(r)[j]),
        ),
{
    let t = table(r, inc, wa);
    let f = |i: int| t.formula.value(t.row(i));
    let g = |j: int| inc[j].times(wa[j]).times(poly::lt_table(r)[j]);
    assert forall|i: int| 0 <= i < inc.len() implies #[trigger] f(i) == g(i) by {
        reveal_with_fuel(Formula::value, 8);
    }
    sums::lemma_sum_ext(inc.len() as int, f, g);
    assert(t.columns[0] == inc);
}

/// The openings cached by the prover satisfy the output claim: it is the value to which the
/// sumcheck reduces.
pub proof fn law_output<F: Field>(
    r: Seq<F>,
    inc: Seq<F>,
    wa: Seq<F>,
    acc: Claims<F>,
    r_address: Seq<F>,
    xs: Seq<F>,
)
    requires
        xs.len() == r.len(),
    ensures
        output(
            r,
            cached(
                acc,
                r_address,
                xs,
                poly::mle(inc, xs.reverse()),
                poly::mle(wa, xs.reverse()),
            ),
            xs,
        ) == summand::<F>().value(sumcheck::final_row(table(r, inc, wa).columns, xs)),
{
    reveal_with_fuel(Formula::value, 8);
    poly::lemma_mle_lt_table(r, xs.reverse());
}

} // verus!
