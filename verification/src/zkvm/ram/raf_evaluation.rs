//! RAM address-fingerprint evaluation.
//!
//! The address claim is the sum over all remapped addresses `k` of `ra(k) unmap(k)`, where `ra(k)`
//! is the cycle-weighted access count and `unmap(k)` the physical address.

use crate::field;
use crate::field::Field;
use crate::framework::accumulator;
use crate::framework::accumulator::{Claims, OpeningId, Openings, SumcheckId, VirtualPolynomial};
use crate::framework::formula;
use crate::framework::formula::Formula;
use crate::framework::poly;
use crate::framework::poly::MultilinearPolynomial;
use crate::framework::sumcheck;
use crate::framework::sumcheck::{SumTable, VirtualSum};
use crate::framework::sums;
use vstd::arithmetic::power2::pow2;
use vstd::prelude::*;

verus! {

/// The degree of the summed formula.
pub const DEGREE: usize = 2;

/// The address width and the cycle point of the address claim.
#[derive(Debug)]
pub struct RamRafEvaluationParams<F> {
    pub log_k: usize,
    pub r_cycle: Vec<F>,
}

/// The name of the address claim.
pub open spec fn address_id() -> OpeningId {
    accumulator::virt(VirtualPolynomial::RamAddress, SumcheckId::SpartanOuter)
}

/// The name of the reduced access claim.
pub open spec fn ra_id() -> OpeningId {
    accumulator::virt(VirtualPolynomial::RamRa, SumcheckId::RamRafEvaluation)
}

/// The summed formula over the columns `ra, unmap`.
pub open spec fn summand<F: Field>() -> Formula<F> {
    formula::times(formula::col(0), formula::col(1))
}

/// The table the prover sums.
pub open spec fn table<F: Field>(ra: Seq<F>, unmap: Seq<F>) -> SumTable<F> {
    SumTable {
        columns: seq![ra, unmap],
        formula: summand(),
    }
}

/// The claims after the reduced opening is recorded at the reversed challenges followed by the
/// cycle point.
pub open spec fn cached<F: Field>(acc: Claims<F>, r_cycle: Seq<F>, xs: Seq<F>, ra: F) -> Claims<F> {
    acc.insert(ra_id(), (xs.reverse() + r_cycle, ra))
}

/// The claim the reduced opening must satisfy.
pub open spec fn output<F: Field>(unmap: Seq<F>, acc: Claims<F>, xs: Seq<F>) -> F {
    poly::mle(unmap, xs.reverse()).times(acc[ra_id()].1)
}

impl<F: Field> RamRafEvaluationParams<F> {
    /// Read the cycle point of the address claim.
    pub fn new(accumulator: &Openings<F>, log_k: usize) -> (r: Self)
        requires
            accumulator@.contains_key(address_id()),
        ensures
            r.log_k == log_k,
            r.r_cycle@ == accumulator@[address_id()].0,
    {
        let (r_cycle, _) = accumulator.get_virtual_polynomial_opening(
            VirtualPolynomial::RamAddress,
            SumcheckId::SpartanOuter,
        );
        RamRafEvaluationParams { log_k, r_cycle }
    }

    /// The input claim: the address claim itself.
    pub fn input_claim(accumulator: &Openings<F>) -> (r: F)
        requires
            accumulator@.contains_key(address_id()),
        ensures
            r == accumulator@[address_id()].1,
    {
        accumulator.virtual_claim(VirtualPolynomial::RamAddress, SumcheckId::SpartanOuter)
    }
}

/// The RAM address-fingerprint instance. Both sides hold the public `unmap` column.
pub struct RamRafEvaluation<F> {
    pub params: RamRafEvaluationParams<F>,
    pub sum: VirtualSum<F>,
    pub unmap_col: Vec<F>,
}

impl<F: Field> RamRafEvaluation<F> {
    /// The prover's instance over the access-count column and the public address column.
    pub fn new_prover(params: RamRafEvaluationParams<F>, ra: Vec<F>, unmap: Vec<F>) -> (r: Self)
        ensures
            r.params == params,
            r.sum@ == table(ra@, unmap@),
            r.unmap_col@ == unmap@,
    {
        let mut columns: Vec<MultilinearPolynomial<F>> = Vec::new();
        columns.push(MultilinearPolynomial::new(ra));
        columns.push(MultilinearPolynomial::new(poly::copied(&unmap)));
        let sum: VirtualSum<F> = VirtualSum::new(
            columns,
            Formula::column(0).product(Formula::column(1)),
        );
        assert(sum@.columns =~= table(ra@, unmap@).columns);
        RamRafEvaluation { params, sum, unmap_col: unmap }
    }

    /// The verifier's instance, which holds no columns to sum.
    pub fn new_verifier(params: RamRafEvaluationParams<F>, unmap: Vec<F>) -> (r: Self)
        ensures
            r.params == params,
            r.unmap_col@ == unmap@,
    {
        Self { params, sum: VirtualSum::empty(), unmap_col: unmap }
    }

    /// One round per address variable.
    pub fn num_rounds(&self) -> (r: usize)
        ensures
            r == self.params.log_k,
    {
        self.params.log_k
    }

    /// Record the reduced opening of the fully bound access column.
    pub fn cache_openings(&self, accumulator: &mut Openings<F>, challenges: &[F])
        requires
            self.sum@.columns.len() == 2,
            self.sum@.columns[0].len() > 0,
        ensures
            final(accumulator)@ == cached(
                old(accumulator)@,
                self.params.r_cycle@,
                challenges@,
                self.sum@.columns[0][0],
            ),
    {
        let ra: F = self.sum.bound_value(0);
        let r_address: Vec<F> = poly::reversed(challenges);
        accumulator.append_virtual(
            VirtualPolynomial::RamRa,
            SumcheckId::RamRafEvaluation,
            poly::concat(&r_address, &self.params.r_cycle),
            ra,
        );
    }

    /// The claim the reduced opening must satisfy.
    pub fn expected_output_claim(&self, accumulator: &Openings<F>, challenges: &[F]) -> (r: F)
        requires
            accumulator@.contains_key(ra_id()),
            self.unmap_col@.len() == pow2(challenges@.len()),
        ensures
            r == output(self.unmap_col@, accumulator@, challenges@),
    {
        let point: Vec<F> = poly::reversed(challenges);
        let unmap_eval: F = poly::evaluate(&self.unmap_col, &point);
        let ra: F = accumulator.virtual_claim(
            VirtualPolynomial::RamRa,
            SumcheckId::RamRafEvaluation,
        );
        unmap_eval.mul(ra)
    }
}

/// The table is shaped: its columns have one entry for every point, and the degree of its formula is
/// the one that the verifier allows.
pub proof fn law_table_shaped<F: Field>(ra: Seq<F>, unmap: Seq<F>, n: nat)
    requires
        ra.len() == pow2(n),
        unmap.len() == pow2(n),
    ensures
        table(ra, unmap).shaped(n),
        table(ra, unmap).formula.degree() == DEGREE,
        field::all_valid(ra) && field::all_valid(unmap) ==> table(ra, unmap).canonical(),
{
    reveal_with_fuel(Formula::reads, 8);
    reveal_with_fuel(Formula::degree, 8);
    reveal_with_fuel(Formula::canonical, 8);
    
}

/// The summed relation: the inner product of access counts and physical addresses.
pub proof fn law_total<F: Field>(ra: Seq<F>, unmap: Seq<F>)
    ensures
        table(ra, unmap).total() == sums::dot(ra, unmap),
{
    let t = table(ra, unmap);
    let f = |i: int| t.formula.value(t.row(i));
    let g = |i: int| ra[i].times(unmap[i]);
    assert forall|i: int| 0 <= i < ra.len() implies #[trigger] f(i) == g(i) by {
        reveal_with_fuel(Formula::value, 8);
    }
    sums::lemma_sum_ext(ra.len() as int, f, g);
    assert(t.columns[0] == ra);
}

/// The opening cached by the prover satisfies the output claim: it is the value to which the
/// sumcheck reduces.
pub proof fn law_output<F: Field>(
    ra: Seq<F>,
    unmap: Seq<F>,
    acc: Claims<F>,
    r_cycle: Seq<F>,
    xs: Seq<F>,
)
    ensures
        output(unmap, cached(acc, r_cycle, xs, poly::mle(ra, xs.reverse())), xs)
            == summand::<F>().value(sumcheck::final_row(table(ra, unmap).columns, xs)),
{
    reveal_with_fuel(Formula::value, 8);
    F::law_times_comm(poly::mle(ra, xs.reverse()), poly::mle(unmap, xs.reverse()));
}

} // verus!
