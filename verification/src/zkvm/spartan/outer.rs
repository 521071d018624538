//! Spartan outer sumcheck.
//!
//! The constraint system is satisfied: the sum over all rows `x` of
//! `eq(tau, x) (Az(x) Bz(x) - Cz(x))` is zero.

use crate::field;
use crate::field::Field;
use crate::framework::accumulator;
use crate::framework::accumulator::{Claims, OpeningId, Openings, SumcheckId, VirtualPolynomial};
use crate::framework::formula;
use crate::framework::formula::Formula;
use crate::framework::poly;
use crate::framework::poly::MultilinearPolynomial;
use crate::framework::sumcheck;
use crate::framework::sumcheck::{SumTable, VirtualSum};
use crate::framework::sums;
use vstd::arithmetic::power2::pow2;
use vstd::prelude::*;

verus! {

/// The degree of the summed formula.
pub const DEGREE: usize = 3;

/// The point of the zero check.
#[derive(Debug)]
pub struct SpartanOuterParams<F> {
    pub tau: Vec<F>,
}

/// The name of the reduced claim about `az`.
pub open spec fn az_id() -> OpeningId {
    accumulator::virt(VirtualPolynomial::SpartanAz, SumcheckId::SpartanOuter)
}

/// The name of the reduced claim about `bz`.
pub open spec fn bz_id() -> OpeningId {
    accumulator::virt(VirtualPolynomial::SpartanBz, SumcheckId::SpartanOuter)
}

/// The name of the reduced claim about `cz`.
pub open spec fn cz_id() -> OpeningId {
    accumulator::virt(VirtualPolynomial::SpartanCz, SumcheckId::SpartanOuter)
}

/// The summed formula over the columns `eq, az, bz, cz`.
pub open spec fn summand<F: Field>() -> Formula<F> {
    formula::times(
        formula::col(0),
        formula::minus(formula::times(formula::col(1), formula::col(2)), formula::col(3)),
    )
}

/// The table the prover sums.
pub open spec fn table<F: Field>(tau: Seq<F>, az: Seq<F>, bz: Seq<F>, cz: Seq<F>) -> SumTable<F> {
    SumTable {
        columns: seq![poly::eq_table(tau), az, bz, cz],
        formula: summand(),
    }
}

/// The claims after the three reduced openings are recorded at a point.
pub open spec fn cached<F: Field>(acc: Claims<F>, point: Seq<F>, az: F, bz: F, cz: F) -> Claims<F> {
    acc.insert(az_id(), (point, az)).insert(bz_id(), (point, bz)).insert(cz_id(), (point, cz))
}

/// The three reduced openings were recorded.
pub open spec fn has_output<F: Field>(acc: Claims<F>) -> bool {
    acc.contains_key(az_id()) && acc.contains_key(bz_id()) && acc.contains_key(cz_id())
}

/// The claim the reduced openings must satisfy.
pub open spec fn output<F: Field>(tau: Seq<F>, acc: Claims<F>, xs: Seq<F>) -> F {
    poly::eq_mle(tau, xs.reverse()).times(
        acc[az_id()].1.times(acc[bz_id()].1).minus(acc[cz_id()].1),
    )
}

impl<F: Field> SpartanOuterParams<F> {
    /// The zero check at the given point.
    pub fn new(tau: Vec<F>) -> (r: Self)
        ensures
            r.tau@ == tau@,
    {
        SpartanOuterParams { tau }
    }
}

/// The Spartan outer instance.
pub struct SpartanOuter<F> {
    pub params: SpartanOuterParams<F>,
    pub sum: VirtualSum<F>,
}

impl<F: Field> SpartanOuter<F> {
    /// The prover's instance over the three matrix-vector products.
    pub fn new_prover(
        params: SpartanOuterParams<F>,
        az: Vec<F>,
        bz: Vec<F>,
        cz: Vec<F>,
    ) -> (r: Self)
        requires
            pow2(params.tau@.len()) <= usize::MAX,
        ensures
            r.params == params,
            r.sum@ == table(params.tau@, az@, bz@, cz@),
    {
        let eq: Vec<F> = poly::eq_evals(&params.tau);
        let mut columns: Vec<MultilinearPolynomial<F>> = Vec::new();
        columns.push(MultilinearPolynomial::new(eq));
        columns.push(MultilinearPolynomial::new(az));
        columns.push(MultilinearPolynomial::new(bz));
        columns.push(MultilinearPolynomial::new(cz));
        let sum: VirtualSum<F> = VirtualSum::new(
            columns,
            Formula::column(0)
                .product(
                    Formula::column(1).product(Formula::column(2)).difference(Formula::column(3)),
                ),
        );
        assert(sum@.columns =~= table(params.tau@, az@, bz@, cz@).columns);
        SpartanOuter { params, sum }
    }

    /// The verifier's instance, which holds no columns to sum.
    pub fn new_verifier(params: SpartanOuterParams<F>) -> (r: Self)
        ensures
            r.params == params,
    {
        Self { params, sum: VirtualSum::empty() }
    }

    /// One round per row variable.
    pub fn num_rounds(&self) -> (r: usize)
        ensures
            r == self.params.tau@.len(),
    {
        self.params.tau.len()
    }

    /// The check starts from the claim that the sum is zero.
    pub fn input_claim(&self) -> (r: F)
        ensures
            r == F::of_int(0),
    {
        field::zero()
    }

    /// Record the three reduced openings of the fully bound columns.
    pub fn cache_openings(&self, accumulator: &mut Openings<F>, challenges: &[F])
        requires
            self.sum@.columns.len() == 4,
            forall|c: int| 0 <= c < 4 ==> (#[trigger] self.sum@.columns[c]).len() > 0,
        ensures
            final(accumulator)@ == cached(
                old(accumulator)@,
                challenges@.reverse(),
                self.sum@.columns[1][0],
                self.sum@.columns[2][0],
                self.sum@.columns[3][0],
            ),
    {
        let az: F = self.sum.bound_value(1);
        let bz: F = self.sum.bound_value(2);
        let cz: F = self.sum.bound_value(3);
        record_outer(accumulator, &poly::reversed(challenges), az, bz, cz);
    }

    /// The claim the reduced openings must satisfy.
    pub fn expected_output_claim(&self, accumulator: &Openings<F>, challenges: &[F]) -> (r: F)
        requires
            has_output(accumulator@),
            challenges@.len() == self.params.tau@.len(),
        ensures
            r == output(self.params.tau@, accumulator@, challenges@),
    {
        let id: SumcheckId = SumcheckId::SpartanOuter;
        let point: Vec<F> = poly::reversed(challenges);
        let eq_eval: F = poly::eq_at(&self.params.tau, &point);
        let az: F = accumulator.virtual_claim(VirtualPolynomial::SpartanAz, id);
        let bz: F = accumulator.virtual_claim(VirtualPolynomial::SpartanBz, id);
        let cz: F = accumulator.virtual_claim(VirtualPolynomial::SpartanCz, id);
        eq_eval.mul(az.mul(bz).sub(cz))
    }
}

/// Record claims about the three matrix-vector products at one point.
pub fn record_outer<F: Field>(accumulator: &mut Openings<F>, point: &[F], az: F, bz: F, cz: F)
    ensures
        final(accumulator)@ == cached(old(accumulator)@, point@, az, bz, cz),
{
    let id: SumcheckId = SumcheckId::SpartanOuter;
    accumulator.append_virtual(VirtualPolynomial::SpartanAz, id, poly::copied(point), az);
    accumulator.append_virtual(VirtualPolynomial::SpartanBz, id, poly::copied(point), bz);
    accumulator.append_virtual(VirtualPolynomial::SpartanCz, id, poly::copied(point), cz);
}

/// The table is shaped: its columns have one entry for every point, and the degree of its formula is
/// the one that the verifier allows.
pub proof fn law_table_shaped<F: Field>(tau: Seq<F>, az: Seq<F>, bz: Seq<F>, cz: Seq<F>)
    requires
        az.len() == pow2(tau.len()),
        bz.len() == pow2(tau.len()),
        cz.len() == pow2(tau.len()),
    ensures
        table(tau, az, bz, cz).shaped(tau.len()),
        table(tau, az, bz, cz).formula.degree() == DEGREE,
        field::all_valid(az) && field::all_valid(bz) && field::all_valid(cz) ==> table(tau, az, bz, cz).canonical(),
{
    reveal_with_fuel(Formula::reads, 8);
    reveal_with_fuel(Formula::degree, 8);
    reveal_with_fuel(Formula::canonical, 8);
    poly::lemma_eq_table_valid(tau);
}

/// A satisfied constraint system makes the check a zero check.
pub proof fn law_total<F: Field>(tau: Seq<F>, az: Seq<F>, bz: Seq<F>, cz: Seq<F>)
    requires
        az.len() == pow2(tau.len()),
        forall|x: int| 0 <= x < az.len() ==> #[trigger] cz[x] == az[x].times(bz[x]),
    ensures
        table(tau, az, bz, cz).total() == F::of_int(0),
{
    let t = table(tau, az, bz, cz);
    let f = |i: int| t.formula.value(t.row(i));
    assert forall|i: int| 0 <= i < az.len() implies #[trigger] f(i) == F::of_int(0) by {
        reveal_with_fuel(Formula::value, 8);
        assert(cz[i] == az[i].times(bz[i]));
        field::lemma_minus_self(cz[i]);
        F::law_times_zero(poly::eq_table(tau)[i]);
    }
    sums::lemma_sum_zero(az.len() as int, f);
    assert(t.columns[0].len() == az.len());
}

/// The openings cached by the prover satisfy the output claim: it is the value to which the
/// sumcheck reduces.
pub proof fn law_output<F: Field>(
    tau: Seq<F>,
    az: Seq<F>,
    bz: Seq<F>,
    cz: Seq<F>,
    acc: Claims<F>,
    xs: Seq<F>,
)
    requires
        xs.len() == tau.len(),
    ensures
        ({
            let y = xs.reverse();
            output(
                tau,
                cached(acc, y, poly::mle(az, y), poly::mle(bz, y), poly::mle(cz, y)),
                xs,
            ) == summand::<F>().value(sumcheck::final_row(table(tau, az, bz, cz).columns, xs))
        }),
{
    reveal_with_fuel(Formula::value, 8);
    poly::lemma_mle_eq_table(tau, xs.reverse());
}

} // verus!
