//! RAM output check.
//!
//! The final memory agrees with the public output on the output region: the sum over all addresses
//! `k` of `eq(r_address, k) io_mask(k) (Val_final(k) - Val_io(k))` is zero.

use crate::field;
use crate::field::Field;
use crate::framework::accumulator;
use crate::framework::accumulator::{Claims, OpeningId, Openings, SumcheckId, VirtualPolynomial};
use crate::framework::formula;
use crate::framework::formula::Formula;
use crate::framework::poly;
use crate::framework::poly::MultilinearPolynomial;
use crate::framework::sumcheck;
use crate::framework::sumcheck::{SumTable, VirtualSum};
use crate::framework::sums;
use vstd::arithmetic::power2::pow2;
use vstd::prelude::*;

verus! {

/// The degree of the summed formula.
pub const DEGREE: usize = 3;

/// The address point of the zero check.
#[derive(Debug)]
pub struct RamOutputCheckParams<F> {
    pub r_address: Vec<F>,
}

/// The name of the reduced final-value claim.
pub open spec fn final_id() -> OpeningId {
    accumulator::virt(VirtualPolynomial::RamValFinal, SumcheckId::RamOutputCheck)
}

/// The summed formula over the columns `eq, io_mask, val_final, val_io`.
pub open spec fn summand<F: Field>() -> Formula<F> {
    formula::times(
        formula::times(formula::col(0), formula::col(1)),
        formula::minus(formula::col(2), formula::col(3)),
    )
}

/// The table the prover sums.
pub open spec fn table<F: Field>(
    r: Seq<F>,
    val_final: Seq<F>,
    val_io: Seq<F>,
    io_mask: Seq<F>,
) -> SumTable<F> {
    SumTable {
        columns: seq![poly::eq_table(r), io_mask, val_final, val_io],
        formula: summand(),
    }
}

/// The claims after the reduced opening is recorded at the reversed challenges.
pub open spec fn cached<F: Field>(acc: Claims<F>, xs: Seq<F>, val_final: F) -> Claims<F> {
    acc.insert(final_id(), (xs.reverse(), val_final))
}

/// The claim the reduced opening must satisfy.
pub open spec fn output<F: Field>(
    r: Seq<F>,
    val_io: Seq<F>,
    io_mask: Seq<F>,
    acc: Claims<F>,
    xs: Seq<F>,
) -> F {
    let y = xs.reverse();
    poly::eq_mle(r, y).times(poly::mle(io_mask, y)).times(
        acc[final_id()].1.minus(poly::mle(val_io, y)),
    )
}

impl<F: Field> RamOutputCheckParams<F> {
    /// The zero check at the given address point.
    pub fn new(r_address: Vec<F>) -> (r: Self)
        ensures
            r.r_address@ == r_address@,
    {
        RamOutputCheckParams { r_address }
    }

    /// The number of address variables.
    pub fn log_k(&self) -> (r: usize)
        ensures
            r == self.r_address@.len(),
    {
        self.r_address.len()
    }
}

/// The RAM output-check instance. Both sides hold the public columns.
pub struct RamOutputCheck<F> {
    pub params: RamOutputCheckParams<F>,
    pub sum: VirtualSum<F>,
    pub io_mask_col: Vec<F>,
    pub val_io_col: Vec<F>,
}

impl<F: Field> RamOutputCheck<F> {
    /// The prover's instance over the final memory and the public columns.
    pub fn new_prover(
        params: RamOutputCheckParams<F>,
        val_final: Vec<F>,
        val_io: Vec<F>,
        io_mask: Vec<F>,
    ) -> (r: Self)
        requires
            pow2(params.r_address@.len()) <= usize::MAX,
        ensures
            r.params == params,
            r.sum@ == table(params.r_address@, val_final@, val_io@, io_mask@),
            r.io_mask_col@ == io_mask@,
            r.val_io_col@ == val_io@,
    {
        let eq: Vec<F> = poly::eq_evals(&params.r_address);
        let mut columns: Vec<MultilinearPolynomial<F>> = Vec::new();
        columns.push(MultilinearPolynomial::new(eq));
        columns.push(MultilinearPolynomial::new(poly::copied(&io_mask)));
        columns.push(MultilinearPolynomial::new(val_final));
        columns.push(MultilinearPolynomial::new(poly::copied(&val_io)));
        let sum: VirtualSum<F> = VirtualSum::new(
            columns,
            Formula::column(0)
                .product(Formula::column(1))
                .product(Formula::column(2).difference(Formula::column(3))),
        );
        assert(sum@.columns =~= table(params.r_address@, val_final@, val_io@, io_mask@).columns);
        RamOutputCheck { params, sum, io_mask_col: io_mask, val_io_col: val_io }
    }

    /// The verifier's instance, which holds no columns to sum.
    pub fn new_verifier(
        params: RamOutputCheckParams<F>,
        val_io: Vec<F>,
        io_mask: Vec<F>,
    ) -> (r: Self)
        ensures
            r.params == params,
            r.io_mask_col@ == io_mask@,
            r.val_io_col@ == val_io@,
    {
        Self { params, sum: VirtualSum::empty(), io_mask_col: io_mask, val_io_col: val_io }
    }

    /// One round per address variable.
    pub fn num_rounds(&self) -> (r: usize)
        ensures
            r == self.params.r_address@.len(),
    {
        self.params.log_k()
    }

    /// The check starts from the claim that the sum is zero.
    pub fn input_claim(&self) -> (r: F)
        ensures
            r == F::of_int(0),
    {
        field::zero()
    }

    /// Record the reduced opening of the fully bound final-value column.
    pub fn cache_openings(&self, accumulator: &mut Openings<F>, challenges: &[F])
        requires
            self.sum@.columns.len() == 4,
            self.sum@.columns[2].len() > 0,
        ensures
            final(accumulator)@ == cached(
                old(accumulator)@,
                challenges@,
                self.sum@.columns[2][0],
            ),
    {
        let val_final: F = self.sum.bound_value(2);
        accumulator.append_virtual(
            VirtualPolynomial::RamValFinal,
            SumcheckId::RamOutputCheck,
            poly::reversed(challenges),
            val_final,
        );
    }

    /// The claim the reduced opening must satisfy.
    pub fn expected_output_claim(&self, accumulator: &Openings<F>, challenges: &[F]) -> (r: F)
        requires
            accumulator@.contains_key(final_id()),
            self.params.r_address@.len() == challenges@.len(),
            self.io_mask_col@.len() == pow2(challenges@.len()),
            self.val_io_col@.len() == pow2(challenges@.len()),
        ensures
            r == output(
                self.params.r_address@,
                self.val_io_col@,
                self.io_mask_col@,
                accumulator@,
                challenges@,
            ),
    {
        let point: Vec<F> = poly::reversed(challenges);
        let eq_eval: F = poly::eq_at(&self.params.r_address, &point);
        let io_mask_eval: F = poly::evaluate(&self.io_mask_col, &point);
        let val_io_eval: F = poly::evaluate(&self.val_io_col, &point);
        let val_final: F = accumulator.virtual_claim(
            VirtualPolynomial::RamValFinal,
            SumcheckId::RamOutputCheck,
        );
        eq_eval.mul(io_mask_eval).mul(val_final.sub(val_io_eval))
    }
}

/// The table is shaped: its columns have one entry for every point, and the degree of its formula is
/// the one that the verifier allows.
pub proof fn law_table_shaped<F: Field>(
    r: Seq<F>,
    val_final: Seq<F>,
    val_io: Seq<F>,
    io_mask: Seq<F>,
)
    requires
        val_final.len() == pow2(r.len()),
        val_io.len() == pow2(r.len()),
        io_mask.len() == pow2(r.len()),
    ensures
        table(r, val_final, val_io, io_mask).shaped(r.len()),
        table(r, val_final, val_io, io_mask).formula.degree() == DEGREE,
        field::all_valid(val_final) && field::all_valid(val_io) && field::all_valid(io_mask)
            ==> table(r, val_final, val_io, io_mask).canonical(),
{
    reveal_with_fuel(Formula::reads, 8);
    reveal_with_fuel(Formula::degree, 8);
    reveal_with_fuel(Formula::canonical, 8);
    poly::lemma_eq_table_valid(r);
}

/// An honest output makes the check a zero check: where the mask is not zero, the final memory is
/// the public output.
pub proof fn law_total<F: Field>(r: Seq<F>, val_final: Seq<F>, val_io: Seq<F>, io_mask: Seq<F>)
    requires
        val_final.len() == pow2(r.len()),
        forall|k: int|
            0 <= k < val_final.len() ==> #[trigger] io_mask[k] == F::of_int(0) || val_final[k]
                == val_io[k],
    ensures
        table(r, val_final, val_io, io_mask).total() == F::of_int(0),
{
    let t = table(r, val_final, val_io, io_mask);
    let f = |i: int| t.formula.value(t.row(i));
    assert forall|i: int| 0 <= i < val_final.len() implies #[trigger] f(i) == F::of_int(0) by {
        reveal_with_fuel(Formula::value, 8);
        let e = poly::eq_table(r)[i];
        if io_mask[i] == F::of_int(0) {
            F::law_times_zero(e);
            field::lemma_zero_times(val_final[i].minus(val_io[i]));
        } else {
            field::lemma_minus_self(val_io[i]);
            F::law_times_zero(e.times(io_mask[i]));
        }
    }
    sums::lemma_sum_zero(val_final.len() as int, f);
    assert(t.columns[0].len() == val_final.len());
}

/// The opening cached by the prover satisfies the output claim: it is the value to which the
/// sumcheck reduces.
pub proof fn law_output<F: Field>(
    r: Seq<F>,
    val_final: Seq<F>,
    val_io: Seq<F>,
    io_mask: Seq<F>,
    acc: Claims<F>,
    xs: Seq<F>,
)
    requires
        xs.len() == r.len(),
    ensures
        output(r, val_io, io_mask, cached(acc, xs, poly::mle(val_final, xs.reverse())), xs)
            == summand::<F>().value(
            sumcheck::final_row(table(r, val_final, val_io, io_mask).columns, xs),
        ),
{
    reveal_with_fuel(Formula::value, 8);
    poly::lemma_mle_eq_table(r, xs.reverse());
}

} // verus!
