//! RAM value check.
//!
//! Two identities at one address point, batched with the challenge `g`: the value before the cycle
//! point and the final value both exceed the initial value by the increments written so far. Their
//! batch is the sum over all cycles `j` of `inc(j) wa(r_address, j) (LT(j, r_cycle) + g)`.

use crate::field;
use crate::field::Field;
use crate::framework::accumulator;
use crate::framework::accumulator::{
    Claims, CommittedPolynomial, OpeningId, Openings, SumcheckId, VirtualPolynomial,
};
use crate::framework::formula;
use crate::framework::formula::Formula;
use crate::framework::poly;
use crate::framework::poly::MultilinearPolynomial;
use crate::framework::sumcheck;
use crate::framework::sumcheck::{SumTable, VirtualSum};
use crate::framework::sums;
use crate::framework::transcript::Challenge;
use vstd::arithmetic::power2::pow2;
use vstd::prelude::*;

verus! {

/// The degree of the summed formula.
pub const DEGREE: usize = 3;

/// The batching challenge, the two parts of the value claim's point and the initial value there.
#[derive(Debug)]
pub struct RamValCheckParams<F> {
    pub gamma: F,
    pub r_address: Vec<F>,
    pub r_cycle: Vec<F>,
    pub init_eval: F,
}

/// The name of the value claim.
pub open spec fn val_id() -> OpeningId {
    accumulator::virt(VirtualPolynomial::RamVal, SumcheckId::RamReadWriteChecking)
}

/// The name of the final-value claim.
pub open spec fn final_id() -> OpeningId {
    accumulator::virt(VirtualPolynomial::RamValFinal, SumcheckId::RamOutputCheck)
}

/// The name of the reduced access claim.
pub open spec fn ra_id() -> OpeningId {
    accumulator::virt(VirtualPolynomial::RamRa, SumcheckId::RamValCheck)
}

/// The name of the reduced increment claim.
pub open spec fn inc_id() -> OpeningId {
    accumulator::comm(CommittedPolynomial::RamInc, SumcheckId::RamValCheck)
}

/// `(v - i) + g (w - i)`.
pub open spec fn batch<F: Field>(g: F, v: F, w: F, i: F) -> F {
    v.minus(i).plus(g.times(w.minus(i)))
}

/// The batched input claim.
pub open spec fn input<F: Field>(g: F, init: F, acc: Claims<F>) -> F {
    batch(g, acc[val_id()].1, acc[final_id()].1, init)
}

/// The summed formula over the columns `inc, wa, lt`.
pub open spec fn summand<F: Field>(g: F) -> Formula<F> {
    formula::times(
        formula::times(formula::col(0), formula::col(1)),
        formula::plus(formula::col(2), formula::con(g)),
    )
}

/// The table the prover sums.
pub open spec fn table<F: Field>(g: F, r: Seq<F>, inc: Seq<F>, wa: Seq<F>) -> SumTable<F> {
    SumTable {
        columns: seq![inc, wa, poly::lt_table(r)],
        formula: summand(g),
    }
}

/// The claims after the reduced openings are recorded.
pub open spec fn cached<F: Field>(
    acc: Claims<F>,
    r_address: Seq<F>,
    xs: Seq<F>,
    wa: F,
    inc: F,
) -> Claims<F> {
    acc.insert(ra_id(), (r_address + xs.reverse(), wa)).insert(inc_id(), (xs.reverse(), inc))
}

/// The claim the reduced openings must satisfy.
pub open spec fn output<F: Field>(g: F, r: Seq<F>, acc: Claims<F>, xs: Seq<F>) -> F {
    acc[inc_id()].1.times(acc[ra_id()].1).times(poly::lt_mle(xs.reverse(), r).plus(g))
}

impl<F: Field> RamValCheckParams<F> {
    /// Draw the batching challenge, split the value claim's point and evaluate the initial state.
    pub fn new<T: Challenge<F>>(
        accumulator: &Openings<F>,
        log_k: usize,
        initial_ram_state: &[F],
        transcript: &mut T,
    ) -> (r: Self)
        requires
            accumulator@.contains_key(val_id()),
            accumulator@[val_id()].0.len() >= log_k,
            initial_ram_state@.len() == pow2(log_k as nat),
        ensures
            r.gamma == old(transcript).state().next(),
            r.r_address@ == accumulator@[val_id()].0.take(log_k as int),
            r.r_cycle@ == accumulator@[val_id()].0.skip(log_k as int),
            r.init_eval == poly::mle(initial_ram_state@, r.r_address@),
            final(transcript).state() == old(transcript).state().squeeze(),
    {
        let gamma: F = transcript.challenge();
        let (point, _) = accumulator.get_virtual_polynomial_opening(
            VirtualPolynomial::RamVal,
            SumcheckId::RamReadWriteChecking,
        );
        let r_address: Vec<F> = poly::range(&point, 0, log_k);
        let r_cycle: Vec<F> = poly::range(&point, log_k, point.len());
        let size: usize = initial_ram_state.len();
        assert(size == pow2(log_k as nat));
        let init_eval: F = poly::evaluate(initial_ram_state, &r_address);
        RamValCheckParams { gamma, r_address, r_cycle, init_eval }
    }

    /// The batched input claim.
    pub fn input_claim(&self, accumulator: &Openings<F>) -> (r: F)
        requires
            accumulator@.contains_key(val_id()),
            accumulator@.contains_key(final_id()),
        ensures
            r == input(self.gamma, self.init_eval, accumulator@),
    {
        let val_rw: F = accumulator.virtual_claim(
            VirtualPolynomial::RamVal,
            SumcheckId::RamReadWriteChecking,
        );
        let val_final: F = accumulator.virtual_claim(
            VirtualPolynomial::RamValFinal,
            SumcheckId::RamOutputCheck,
        );
        val_rw.sub(self.init_eval).add(self.gamma.mul(val_final.sub(self.init_eval)))
    }
}

/// The RAM value-check instance.
pub struct RamValCheck<F> {
    pub params: RamValCheckParams<F>,
    pub sum: VirtualSum<F>,
}

impl<F: Field> RamValCheck<F> {
    /// The prover's instance over the increment column and the access column at the address point.
    pub fn new_prover(params: RamValCheckParams<F>, inc: Vec<F>, wa: Vec<F>) -> (r: Self)
        requires
            pow2(params.r_cycle@.len()) <= usize::MAX,
        ensures
            r.params == params,
            r.sum@ == table(params.gamma, params.r_cycle@, inc@, wa@),
    {
        let lt: Vec<F> = poly::lt_evals(&params.r_cycle);
        let mut columns: Vec<MultilinearPolynomial<F>> = Vec::new();
        columns.push(MultilinearPolynomial::new(inc));
        columns.push(MultilinearPolynomial::new(wa));
        columns.push(MultilinearPolynomial::new(lt));
        let sum: VirtualSum<F> = VirtualSum::new(
            columns,
            Formula::column(0)
                .product(Formula::column(1))
                .product(Formula::column(2).sum(Formula::constant(params.gamma))),
        );
        assert(sum@.columns =~= table(params.gamma, params.r_cycle@, inc@, wa@).columns);
        RamValCheck { params, sum }
    }

    /// The verifier's instance, which holds no columns to sum.
    pub fn new_verifier(params: RamValCheckParams<F>) -> (r: Self)
        ensures
            r.params == params,
    {
        Self { params, sum: VirtualSum::empty() }
    }

    /// The full access point: the address point followed by the reversed challenges.
    pub fn wa_opening_point(&self, challenges: &[F]) -> (r: Vec<F>)
        ensures
            r@ == self.params.r_address@ + challenges@.reverse(),
    {
        let r_cycle: Vec<F> = poly::reversed(challenges);
        poly::concat(&self.params.r_address, &r_cycle)
    }

    /// One round per cycle variable.
    pub fn num_rounds(&self) -> (r: usize)
        ensures
            r == self.params.r_cycle@.len(),
    {
        self.params.r_cycle.len()
    }

    /// Record the reduced openings of the fully bound columns.
    pub fn cache_openings(&self, accumulator: &mut Openings<F>, challenges: &[F])
        requires
            self.sum@.columns.len() == 3,
            forall|c: int| 0 <= c < 3 ==> (#[trigger] self.sum@.columns[c]).len() > 0,
        ensures
            final(accumulator)@ == cached(
                old(accumulator)@,
                self.params.r_address@,
                challenges@,
                self.sum@.columns[1][0],
                self.sum@.columns[0][0],
            ),
    {
        let inc: F = self.sum.bound_value(0);
        let wa: F = self.sum.bound_value(1);
        accumulator.append_virtual(
            VirtualPolynomial::RamRa,
            SumcheckId::RamValCheck,
            self.wa_opening_point(challenges),
            wa,
        );
        accumulator.append_dense(
            CommittedPolynomial::RamInc,
            SumcheckId::RamValCheck,
            poly::reversed(challenges),
            inc,
        );
    }

    /// The claim the reduced openings must satisfy.
    pub fn expected_output_claim(&self, accumulator: &Openings<F>, challenges: &[F]) -> (r: F)
        requires
            accumulator@.contains_key(inc_id()),
            accumulator@.contains_key(ra_id()),
            challenges@.len() == self.params.r_cycle@.len(),
        ensures
            r == output(self.params.gamma, self.params.r_cycle@, accumulator@, challenges@),
    {
        let point: Vec<F> = poly::reversed(challenges);
        let lt_eval: F = poly::lt_at(&point, &self.params.r_cycle);
        let inc: F = accumulator.committed_claim(
            CommittedPolynomial::RamInc,
            SumcheckId::RamValCheck,
        );
        let wa: F = accumulator.virtual_claim(VirtualPolynomial::RamRa, SumcheckId::RamValCheck);
        inc.mul(wa).mul(lt_eval.add(self.params.gamma))
    }
}

/// The table is shaped: its columns have one entry for every point, and the degree of its formula is
/// the one that the verifier allows.
pub proof fn law_table_shaped<F: Field>(g: F, r: Seq<F>, inc: Seq<F>, wa: Seq<F>)
    requires
        inc.len() == pow2(r.len()),
        wa.len() == pow2(r.len()),
    ensures
        table(g, r, inc, wa).shaped(r.len()),
        table(g, r, inc, wa).formula.degree() == DEGREE,
        g.valid() && field::all_valid(inc) && field::all_valid(wa) ==> table(g, r, inc, wa).canonical(),
{
    reveal_with_fuel(Formula::reads, 8);
    reveal_with_fuel(Formula::degree, 8);
    reveal_with_fuel(Formula::canonical, 8);
    poly::lemma_lt_table_valid(r);
}

/// The summed relation: the increments before the cycle point plus `g` times all increments.
pub proof fn law_total<F: Field>(g: F, r: Seq<F>, inc: Seq<F>, wa: Seq<F>)
    ensures
        table(g, r, inc, wa).total() == sums::sum(
            inc.len() as int,
            |j: int| inc[j].times(wa[j]).times(poly::lt_table(r)[j]),
        ).plus(g.times(sums::sum(inc.len() as int, |j: int| inc[j].times(wa[j])))),
{
    let t = table(g, r, inc, wa);
    let n = inc.len() as int;
    let f = |i: int| t.formula.value(t.row(i));
    let fl = |j: int| inc[j].times(wa[j]).times(poly::lt_table(r)[j]);
    let fa = |j: int| inc[j].times(wa[j]);
    let ga = |j: int| g.times(fa(j));
    let h = |j: int| fl(j).plus(ga(j));
    assert forall|i: int| 0 <= i < n implies #[trigger] f(i) == h(i) by {
        reveal_with_fuel(Formula::value, 8);
        F::law_distrib(fa(i), poly::lt_table(r)[i], g);
        F::law_times_comm(fa(i), g);
    }
    sums::lemma_sum_ext(n, f, h);
    sums::lemma_sum_plus(n, fl, ga);
    sums::lemma_sum_scale(n, g, fa);
    assert(t.columns[0] == inc);
}

/// The openings cached by the prover satisfy the output claim: it is the value to which the
/// sumcheck reduces.
pub proof fn law_output<F: Field>(
    g: F,
    r: Seq<F>,
    inc: Seq<F>,
    wa: Seq<F>,
    acc: Claims<F>,
    r_address: Seq<F>,
    xs: Seq<F>,
)
    requires
        xs.len() == r.len(),
    ensures
        output(
            g,
            r,
            cached(
                acc,
                r_address,
                xs,
                poly::mle(wa, xs.reverse()),
                poly::mle(inc, xs.reverse()),
            ),
            xs,
        ) == summand(g).value(sumcheck::final_row(table(g, r, inc, wa).columns, xs)),
{
    reveal_with_fuel(Formula::value, 8);
    poly::lemma_mle_lt_table(r, xs.reverse());
}

} // verus!
