//! Spartan inner sumcheck.
//!
//! The three claims about the matrix-vector products at the row point are one claim about the
//! assignment: `rho_a Az(r_x) + rho_b Bz(r_x) + rho_c Cz(r_x)` is the sum over all columns `y` of
//! `M(r_x, y) z(y)`, where `M` is the combination of the three matrices.

use crate::field;
use crate::field::Field;
use crate::framework::accumulator;
use crate::framework::accumulator::{Claims, OpeningId, Openings, SumcheckId, VirtualPolynomial};
use crate::framework::formula;
use crate::framework::formula::Formula;
use crate::framework::poly;
use crate::framework::poly::MultilinearPolynomial;
use crate::framework::sumcheck;
use crate::framework::sumcheck::{SumTable, VirtualSum};
use crate::framework::sums;
use crate::r1cs::key;
use crate::r1cs::key::{R1csKey, Weights};
use crate::zkvm::spartan::outer;
use vstd::arithmetic::power2::pow2;
use vstd::prelude::*;

verus! {

/// The degree of the summed formula.
pub const DEGREE: usize = 2;

/// The constraint system, the row point and the weights of the three matrices.
#[derive(Debug)]
pub struct SpartanInnerParams<'a, F> {
    pub key: &'a R1csKey<F>,
    pub r_x: Vec<F>,
    pub rho: [F; 3],
}

/// The name of the claim about the assignment.
pub open spec fn z_id() -> OpeningId {
    accumulator::virt(VirtualPolynomial::SpartanWitnessZ, SumcheckId::SpartanInner)
}

/// The summed formula over the columns `M(r_x, .), z`.
pub open spec fn summand<F: Field>() -> Formula<F> {
    formula::times(formula::col(0), formula::col(1))
}

/// The table the prover sums.
pub open spec fn table<F: Field>(
    key: R1csKey<F>,
    r_x: Seq<F>,
    rho: Weights<F>,
    z: Seq<F>,
) -> SumTable<F> {
    SumTable { columns: seq![key.combined(r_x, rho), z], formula: summand() }
}

/// The combination of the three claims about the matrix-vector products.
pub open spec fn input<F: Field>(rho: Weights<F>, acc: Claims<F>) -> F {
    rho.combine(acc[outer::az_id()].1, acc[outer::bz_id()].1, acc[outer::cz_id()].1)
}

/// The claims after the opening of the assignment is recorded.
pub open spec fn cached<F: Field>(acc: Claims<F>, xs: Seq<F>, z: F) -> Claims<F> {
    acc.insert(z_id(), (xs.reverse(), z))
}

/// The claim the recorded opening must satisfy.
pub open spec fn output<F: Field>(
    key: R1csKey<F>,
    r_x: Seq<F>,
    rho: Weights<F>,
    acc: Claims<F>,
    xs: Seq<F>,
) -> F {
    rho.combine(
        key.evaluation(key.matrices.a_rows(), r_x, xs.reverse()),
        key.evaluation(key.matrices.b_rows(), r_x, xs.reverse()),
        key.evaluation(key.matrices.c_rows(), r_x, xs.reverse()),
    ).times(acc[z_id()].1)
}

impl<'a, F: Field> SpartanInnerParams<'a, F> {
    /// The weights of the three matrices.
    pub open spec fn weights(self) -> Weights<F> {
        Weights { a: self.rho@[0], b: self.rho@[1], c: self.rho@[2] }
    }

    /// The row point fits the constraint system.
    pub open spec fn sized(self) -> bool {
        self.key.wf() && self.r_x@.len() == self.key.row_vars()
    }
}

/// The Spartan inner instance.
pub struct SpartanInner<'a, F> {
    pub params: SpartanInnerParams<'a, F>,
    pub sum: VirtualSum<F>,
}

impl<'a, F: Field> SpartanInner<'a, F> {
    /// The prover's instance over the combined row and the assignment.
    pub fn new_prover(params: SpartanInnerParams<'a, F>, z: Vec<F>) -> (r: Self)
        requires
            params.sized(),
        ensures
            r.params == params,
            r.sum@ == table(*params.key, params.r_x@, params.weights(), z@),
    {
        let combined: Vec<F> = params.key.combined_row(
            &params.r_x,
            params.rho[0],
            params.rho[1],
            params.rho[2],
        );
        let mut columns: Vec<MultilinearPolynomial<F>> = Vec::new();
        columns.push(MultilinearPolynomial::new(combined));
        columns.push(MultilinearPolynomial::new(z));
        let sum: VirtualSum<F> = VirtualSum::new(
            columns,
            Formula::column(0).product(Formula::column(1)),
        );
        assert(sum@.columns =~= table(*params.key, params.r_x@, params.weights(), z@).columns);
        SpartanInner { params, sum }
    }

    /// The verifier's instance, which holds no columns to sum.
    pub fn new_verifier(params: SpartanInnerParams<'a, F>) -> (r: Self)
        ensures
            r.params == params,
    {
        Self { params, sum: VirtualSum::empty() }
    }

    /// One round per column variable.
    pub fn num_rounds(&self) -> (r: usize)
        requires
            self.params.sized(),
        ensures
            r == self.params.key.col_vars(),
    {
        self.params.key.num_col_vars()
    }

    /// The degree of a round polynomial.
    pub fn degree(&self) -> (r: usize)
        ensures
            r == DEGREE,
    {
        DEGREE
    }

    /// The combination of the three claims about the matrix-vector products.
    pub fn input_claim(&self, accumulator: &Openings<F>) -> (r: F)
        requires
            outer::has_output(accumulator@),
        ensures
            r == input(self.params.weights(), accumulator@),
    {
        let id: SumcheckId = SumcheckId::SpartanOuter;
        let az: F = accumulator.virtual_claim(VirtualPolynomial::SpartanAz, id);
        let bz: F = accumulator.virtual_claim(VirtualPolynomial::SpartanBz, id);
        let cz: F = accumulator.virtual_claim(VirtualPolynomial::SpartanCz, id);
        let rho = self.params.rho;
        rho[0].mul(az).add(rho[1].mul(bz)).add(rho[2].mul(cz))
    }

    /// Record the opening of the fully bound assignment.
    pub fn cache_openings(&self, accumulator: &mut Openings<F>, challenges: &[F])
        requires
            self.sum@.columns.len() == 2,
            self.sum@.columns[1].len() > 0,
        ensures
            final(accumulator)@ == cached(
                old(accumulator)@,
                challenges@,
                self.sum@.columns[1][0],
            ),
    {
        let z: F = self.sum.bound_value(1);
        accumulator.append_virtual(
            VirtualPolynomial::SpartanWitnessZ,
            SumcheckId::SpartanInner,
            poly::reversed(challenges),
            z,
        );
    }

    /// The claim the recorded opening must satisfy.
    pub fn expected_output_claim(&self, accumulator: &Openings<F>, challenges: &[F]) -> (r: F)
        requires
            self.params.sized(),
            accumulator@.contains_key(z_id()),
            challenges@.len() == self.params.key.col_vars(),
        ensures
            r == output(
                *self.params.key,
                self.params.r_x@,
                self.params.weights(),
                accumulator@,
                challenges@,
            ),
    {
        let point: Vec<F> = poly::reversed(challenges);
        let (a, b, c) = self.params.key.evaluate_matrix_mles(&self.params.r_x, &point);
        let rho = self.params.rho;
        let m: F = rho[0].mul(a).add(rho[1].mul(b)).add(rho[2].mul(c));
        let z: F = accumulator.virtual_claim(
            VirtualPolynomial::SpartanWitnessZ,
            SumcheckId::SpartanInner,
        );
        m.mul(z)
    }
}

/// The table is shaped: its columns have one entry for every point, and the degree of its formula is
/// the one that the verifier allows.
pub proof fn law_table_shaped<F: Field>(key: R1csKey<F>, r_x: Seq<F>, rho: Weights<F>, z: Seq<F>)
    requires
        key.wf(),
        r_x.len() == key.row_vars(),
        z.len() == pow2(key.col_vars()),
    ensures
        table(key, r_x, rho, z).shaped(key.col_vars()),
        table(key, r_x, rho, z).formula.degree() == DEGREE,
        field::all_valid(z) ==> table(key, r_x, rho, z).canonical(),
{
    reveal_with_fuel(Formula::reads, 4);
    reveal_with_fuel(Formula::degree, 4);
    reveal_with_fuel(Formula::canonical, 4);
    poly::lemma_pow2_concat(key.log_cycles as nat, key.log_vars as nat);
    let row = key.combined(r_x, rho);
    let n = key.num_vars_padded as int;
    let eq = poly::eq_table(r_x.take(key.log_cycles as int));
    let columns = key.combined_columns(r_x.skip(key.log_cycles as int), rho);
    assert forall|y: int| 0 <= y < row.len() implies (#[trigger] row[y]).valid() by {
        F::law_valid(eq[y / n], columns[y % n]);
    }
}

/// The sum is the combination of the matrix-vector products at the row point.
pub proof fn law_total<F: Field>(key: R1csKey<F>, r_x: Seq<F>, rho: Weights<F>, z: Seq<F>)
    requires
        key.wf(),
        r_x.len() == key.row_vars(),
        z.len() == pow2(key.col_vars()),
    ensures
        table(key, r_x, rho, z).total() == rho.combine(
            poly::mle(key.column_of(key.matrices.a_rows(), z), r_x),
            poly::mle(key.column_of(key.matrices.b_rows(), z), r_x),
            poly::mle(key.column_of(key.matrices.c_rows(), z), r_x),
        ),
{
    let t = table(key, r_x, rho, z);
    key::law_combined_row(key, r_x, rho, z);
    poly::lemma_pow2_concat(key.log_cycles as nat, key.log_vars as nat);
    let row = key.combined(r_x, rho);
    let f = |i: int| t.formula.value(t.row(i));
    let g = |i: int| row[i].times(z[i]);
    assert forall|i: int| 0 <= i < row.len() implies #[trigger] f(i) == g(i) by {
        reveal_with_fuel(Formula::value, 4);
    }
    sums::lemma_sum_ext(row.len() as int, f, g);
}

/// The opening cached by the prover satisfies the output claim: it is the value to which the
/// sumcheck reduces.
pub proof fn law_output<F: Field>(
    key: R1csKey<F>,
    r_x: Seq<F>,
    rho: Weights<F>,
    z: Seq<F>,
    acc: Claims<F>,
    xs: Seq<F>,
)
    requires
        key.wf(),
        r_x.len() == key.row_vars(),
        xs.len() == key.col_vars(),
    ensures
        output(key, r_x, rho, cached(acc, xs, poly::mle(z, xs.reverse())), xs) == summand::<F>().value(
            sumcheck::final_row(table(key, r_x, rho, z).columns, xs),
        ),
{
    reveal_with_fuel(Formula::value, 4);
    key::law_combined_mle(key, r_x, rho, xs.reverse());
}

} // verus!
