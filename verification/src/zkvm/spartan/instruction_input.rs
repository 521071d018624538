//! Spartan instruction-input virtualization.
//!
//! The lookup operands are the flag-selected register, program-counter and immediate values: the
//! right-input claim plus `g` times the left-input claim is the sum over all cycles `j` of
//! `eq(r_cycle, j) (right(j) + g left(j))`, where `left = left_is_rs1 rs1 + left_is_pc pc` and
//! `right = right_is_rs2 rs2 + right_is_imm imm`.

use crate::field;
use crate::field::Field;
use crate::framework::accumulator;
use crate::framework::accumulator::{Claims, OpeningId, Openings, SumcheckId, VirtualPolynomial};
use crate::framework::formula;
use crate::framework::formula::Formula;
use crate::framework::poly;
use crate::framework::poly::MultilinearPolynomial;
use crate::framework::sumcheck;
use crate::framework::sumcheck::{SumTable, VirtualSum};
use crate::framework::sums;
use crate::framework::transcript::Challenge;
use vstd::arithmetic::power2::pow2;
use vstd::prelude::*;

verus! {

/// The degree of the summed formula.
pub const DEGREE: usize = 3;

/// The cycle point of the input claims and the batching challenge.
#[derive(Debug)]
pub struct InstructionInputParams<F> {
    pub r_cycle: Vec<F>,
    pub gamma: F,
}

/// The name of the left-input claim.
pub open spec fn left_id() -> OpeningId {
    accumulator::virt(
        VirtualPolynomial::LeftInstructionInput,
        SumcheckId::SpartanProductVirtualization,
    )
}

/// The name of the right-input claim.
pub open spec fn right_id() -> OpeningId {
    accumulator::virt(
        VirtualPolynomial::RightInstructionInput,
        SumcheckId::SpartanProductVirtualization,
    )
}

/// The polynomials of the eight flag and value columns, in the order `left_is_rs1, rs1,
/// left_is_pc, pc, right_is_rs2, rs2, right_is_imm, imm`.
pub open spec fn keys() -> Seq<VirtualPolynomial> {
    seq![
        VirtualPolynomial::LeftLookupOperand,
        VirtualPolynomial::Rs1Value,
        VirtualPolynomial::RightLookupOperand,
        VirtualPolynomial::UnexpandedPC,
        VirtualPolynomial::InstructionRaf,
        VirtualPolynomial::Rs2Value,
        VirtualPolynomial::InstructionRafFlag,
        VirtualPolynomial::Imm,
    ]
}

/// The name of the reduced claim about column `i`.
pub open spec fn reduced_id(i: int) -> OpeningId {
    accumulator::virt(keys()[i], SumcheckId::InstructionInputVirtualization)
}

/// The batched input claim.
pub open spec fn input<F: Field>(g: F, acc: Claims<F>) -> F {
    acc[right_id()].1.plus(g.times(acc[left_id()].1))
}

/// The left input of eight column values.
pub open spec fn left<F: Field>(v: Seq<F>) -> F {
    v[0].times(v[1]).plus(v[2].times(v[3]))
}

/// The right input of eight column values.
pub open spec fn right<F: Field>(v: Seq<F>) -> F {
    v[4].times(v[5]).plus(v[6].times(v[7]))
}

/// The summed formula over `eq` and the eight columns.
pub open spec fn summand<F: Field>(g: F) -> Formula<F> {
    formula::times(
        formula::col(0),
        formula::plus(
            formula::plus(
                formula::times(formula::col(5), formula::col(6)),
                formula::times(formula::col(7), formula::col(8)),
            ),
            formula::times(
                formula::con(g),
                formula::plus(
                    formula::times(formula::col(1), formula::col(2)),
                    formula::times(formula::col(3), formula::col(4)),
                ),
            ),
        ),
    )
}

/// The table the prover sums.
pub open spec fn table<F: Field>(g: F, r: Seq<F>, cols: Seq<Seq<F>>) -> SumTable<F> {
    SumTable { columns: seq![poly::eq_table(r)] + cols, formula: summand(g) }
}

/// The claims after the first `n` reduced openings are recorded at the reversed challenges.
pub open spec fn cached<F: Field>(acc: Claims<F>, xs: Seq<F>, v: Seq<F>, n: int) -> Claims<F>
    decreases n,
{
    if n <= 0 {
        acc
    } else {
        cached(acc, xs, v, n - 1).insert(reduced_id(n - 1), (xs.reverse(), v[n - 1]))
    }
}

/// The values of the eight reduced openings.
pub open spec fn reduced<F: Field>(acc: Claims<F>) -> Seq<F> {
    Seq::new(8, |i: int| acc[reduced_id(i)].1)
}

/// The claim the reduced openings must satisfy.
pub open spec fn output<F: Field>(g: F, r: Seq<F>, acc: Claims<F>, xs: Seq<F>) -> F {
    let v = reduced(acc);
    poly::eq_mle(r, xs.reverse()).times(right(v).plus(g.times(left(v))))
}

impl<F: Field> InstructionInputParams<F> {
    /// Read the cycle point of the left-input claim and draw the batching challenge.
    pub fn new<T: Challenge<F>>(accumulator: &Openings<F>, transcript: &mut T) -> (r: Self)
        requires
            accumulator@.contains_key(left_id()),
        ensures
            r.r_cycle@ == accumulator@[left_id()].0,
            r.gamma == old(transcript).state().next(),
            final(transcript).state() == old(transcript).state().squeeze(),
    {
        let (r_cycle, _) = accumulator.get_virtual_polynomial_opening(
            VirtualPolynomial::LeftInstructionInput,
            SumcheckId::SpartanProductVirtualization,
        );
        let gamma: F = transcript.challenge();
        InstructionInputParams { r_cycle, gamma }
    }

    /// The batched input claim.
    pub fn input_claim(&self, accumulator: &Openings<F>) -> (r: F)
        requires
            accumulator@.contains_key(left_id()),
            accumulator@.contains_key(right_id()),
        ensures
            r == input(self.gamma, accumulator@),
    {
        let id: SumcheckId = SumcheckId::SpartanProductVirtualization;
        let left: F = accumulator.virtual_claim(VirtualPolynomial::LeftInstructionInput, id);
        let right: F = accumulator.virtual_claim(VirtualPolynomial::RightInstructionInput, id);
        right.add(self.gamma.mul(left))
    }
}

/// The instruction-input instance.
pub struct InstructionInput<F> {
    pub params: InstructionInputParams<F>,
    pub sum: VirtualSum<F>,
}

impl<F: Field> InstructionInput<F> {
    /// The prover's instance over the eight flag and value columns.
    pub fn new_prover(params: InstructionInputParams<F>, cols: Vec<Vec<F>>) -> (r: Self)
        requires
            cols@.len() == 8,
            pow2(params.r_cycle@.len()) <= usize::MAX,
        ensures
            r.params == params,
            r.sum@ == table(params.gamma, params.r_cycle@, cols@.map_values(|c: Vec<F>| c@)),
    {
        let ghost target = table(params.gamma, params.r_cycle@, cols@.map_values(|c: Vec<F>| c@));
        let mut columns: Vec<MultilinearPolynomial<F>> = Vec::new();
        columns.push(MultilinearPolynomial::new(poly::eq_evals(&params.r_cycle)));
        assert(columns@.map_values(|p: MultilinearPolynomial<F>| p@) =~= target.columns.take(1));
        for i in 0..8usize
            invariant
                cols@.len() == 8,
                target == table(
                    params.gamma,
                    params.r_cycle@,
                    cols@.map_values(|c: Vec<F>| c@),
                ),
                columns@.map_values(|p: MultilinearPolynomial<F>| p@) == target.columns.take(
                    i + 1,
                ),
        {
            let ghost before = columns@.map_values(|p: MultilinearPolynomial<F>| p@);
            columns.push(MultilinearPolynomial::new(poly::copied(&cols[i])));
            assert(columns@.map_values(|p: MultilinearPolynomial<F>| p@) =~= before.push(
                cols@[i as int]@,
            ));
            assert(before.push(target.columns[i + 1]) =~= target.columns.take(i + 2));
        }
        let sum: VirtualSum<F> = VirtualSum::new(
            columns,
            Formula::column(0)
                .product(
                    Formula::column(5)
                        .product(Formula::column(6))
                        .sum(Formula::column(7).product(Formula::column(8)))
                        .sum(
                            Formula::constant(params.gamma)
                                .product(
                                    Formula::column(1)
                                        .product(Formula::column(2))
                                        .sum(Formula::column(3).product(Formula::column(4))),
                                ),
                        ),
                ),
        );
        assert(sum@.columns =~= target.columns);
        InstructionInput { params, sum }
    }

    /// The verifier's instance, which holds no columns to sum.
    pub fn new_verifier(params: InstructionInputParams<F>) -> (r: Self)
        ensures
            r.params == params,
    {
        Self { params, sum: VirtualSum::empty() }
    }

    /// One round per cycle variable.
    pub fn num_rounds(&self) -> (r: usize)
        ensures
            r == self.params.r_cycle@.len(),
    {
        self.params.r_cycle.len()
    }

    /// Record the eight reduced openings of the fully bound columns.
    pub fn cache_openings(&self, accumulator: &mut Openings<F>, challenges: &[F])
        requires
            self.sum@.columns.len() == 9,
            forall|c: int| 0 <= c < 9 ==> (#[trigger] self.sum@.columns[c]).len() > 0,
        ensures
            final(accumulator)@ == cached(
                old(accumulator)@,
                challenges@,
                self.sum@.columns.skip(1).map_values(|p: Seq<F>| p[0]),
                8,
            ),
    {
        let id: SumcheckId = SumcheckId::InstructionInputVirtualization;
        proof {
            reveal_with_fuel(cached, 9);
        }
        accumulator.append_virtual(
            VirtualPolynomial::LeftLookupOperand,
            id,
            poly::reversed(challenges),
            self.sum.bound_value(1),
        );
        accumulator.append_virtual(
            VirtualPolynomial::Rs1Value,
            id,
            poly::reversed(challenges),
            self.sum.bound_value(2),
        );
        accumulator.append_virtual(
            VirtualPolynomial::RightLookupOperand,
            id,
            poly::reversed(challenges),
            self.sum.bound_value(3),
        );
        accumulator.append_virtual(
            VirtualPolynomial::UnexpandedPC,
            id,
            poly::reversed(challenges),
            self.sum.bound_value(4),
        );
        accumulator.append_virtual(
            VirtualPolynomial::InstructionRaf,
            id,
            poly::reversed(challenges),
            self.sum.bound_value(5),
        );
        accumulator.append_virtual(
            VirtualPolynomial::Rs2Value,
            id,
            poly::reversed(challenges),
            self.sum.bound_value(6),
        );
        accumulator.append_virtual(
            VirtualPolynomial::InstructionRafFlag,
            id,
            poly::reversed(challenges),
            self.sum.bound_value(7),
        );
        accumulator.append_virtual(
            VirtualPolynomial::Imm,
            id,
            poly::reversed(challenges),
            self.sum.bound_value(8),
        );
    }

    /// The claim the reduced openings must satisfy.
    pub fn expected_output_claim(&self, accumulator: &Openings<F>, challenges: &[F]) -> (r: F)
        requires
            forall|i: int| 0 <= i < 8 ==> accumulator@.contains_key(#[trigger] reduced_id(i)),
            challenges@.len() == self.params.r_cycle@.len(),
        ensures
            r == output(self.params.gamma, self.params.r_cycle@, accumulator@, challenges@),
    {
        let id: SumcheckId = SumcheckId::InstructionInputVirtualization;
        proof {
            assert(accumulator@.contains_key(reduced_id(0)));
            assert(accumulator@.contains_key(reduced_id(1)));
            assert(accumulator@.contains_key(reduced_id(2)));
            assert(accumulator@.contains_key(reduced_id(3)));
            assert(accumulator@.contains_key(reduced_id(4)));
            assert(accumulator@.contains_key(reduced_id(5)));
            assert(accumulator@.contains_key(reduced_id(6)));
            assert(accumulator@.contains_key(reduced_id(7)));
        }
        let point: Vec<F> = poly::reversed(challenges);
        let eq_eval: F = poly::eq_at(&self.params.r_cycle, &point);
        let v0: F = accumulator.virtual_claim(VirtualPolynomial::LeftLookupOperand, id);
        let v1: F = accumulator.virtual_claim(VirtualPolynomial::Rs1Value, id);
        let v2: F = accumulator.virtual_claim(VirtualPolynomial::RightLookupOperand, id);
        let v3: F = accumulator.virtual_claim(VirtualPolynomial::UnexpandedPC, id);
        let v4: F = accumulator.virtual_claim(VirtualPolynomial::InstructionRaf, id);
        let v5: F = accumulator.virtual_claim(VirtualPolynomial::Rs2Value, id);
        let v6: F = accumulator.virtual_claim(VirtualPolynomial::InstructionRafFlag, id);
        let v7: F = accumulator.virtual_claim(VirtualPolynomial::Imm, id);
        let left: F = v0.mul(v1).add(v2.mul(v3));
        let right: F = v4.mul(v5).add(v6.mul(v7));
        eq_eval.mul(right.add(self.params.gamma.mul(left)))
    }
}

/// The table is shaped: its columns have one entry for every point, and the degree of its formula is
/// the one that the verifier allows.
pub proof fn law_table_shaped<F: Field>(g: F, r: Seq<F>, cols: Seq<Seq<F>>)
    requires
        cols.len() == 8,
        forall|c: int| 0 <= c < 8 ==> (#[trigger] cols[c]).len() == pow2(r.len()),
    ensures
        table(g, r, cols).shaped(r.len()),
        table(g, r, cols).formula.degree() == DEGREE,
        g.valid() && (forall|c: int| 0 <= c < 8 ==> field::all_valid(#[trigger] cols[c])) ==> table(
            g,
            r,
            cols,
        ).canonical(),
{
    reveal_with_fuel(Formula::reads, 8);
    reveal_with_fuel(Formula::degree, 8);
    reveal_with_fuel(Formula::canonical, 8);
    poly::lemma_eq_table_valid(r);
    let t = table(g, r, cols);
    assert forall|c: int| 0 <= c < 9 implies (#[trigger] t.columns[c]).len() == pow2(r.len()) by {
        if c > 0 {
            assert(t.columns[c] == cols[c - 1]);
        }
    }
    if g.valid() && (forall|c: int| 0 <= c < 8 ==> field::all_valid(#[trigger] cols[c])) {
        assert forall|c: int| 0 <= c < 9 implies field::all_valid(#[trigger] t.columns[c]) by {
            if c > 0 {
                assert(t.columns[c] == cols[c - 1]);
            }
        }
    }
}

/// The input value of column values at every cycle.
pub open spec fn input_column<F: Field>(
    cols: Seq<Seq<F>>,
    n: nat,
    f: spec_fn(Seq<F>) -> F,
) -> Seq<F> {
    Seq::new(n, |j: int| f(cols.map_values(|c: Seq<F>| c[j])))
}

/// The sum over the cycles is the batch of the two inputs' multilinear extensions.
pub proof fn law_total<F: Field>(g: F, r: Seq<F>, cols: Seq<Seq<F>>)
    requires
        cols.len() == 8,
    ensures
        table(g, r, cols).total() == poly::mle(
            input_column(cols, pow2(r.len()), |v: Seq<F>| right(v)),
            r,
        ).plus(g.times(poly::mle(input_column(cols, pow2(r.len()), |v: Seq<F>| left(v)), r))),
{
    let t = table(g, r, cols);
    let n = pow2(r.len());
    let rc = input_column(cols, n, |v: Seq<F>| right(v));
    let lc = input_column(cols, n, |v: Seq<F>| left(v));
    let gl = Seq::new(n, |j: int| g.times(lc[j]));
    let s = Seq::new(n, |j: int| rc[j].plus(gl[j]));
    let f = |i: int| t.formula.value(t.row(i));
    let e = |i: int| poly::eq_table(r)[i].times(s[i]);
    assert forall|i: int| 0 <= i < n implies #[trigger] f(i) == e(i) by {
        reveal_with_fuel(Formula::value, 8);
        let row = t.row(i);
        let v = cols.map_values(|c: Seq<F>| c[i]);
        assert(row[0] == poly::eq_table(r)[i]);
        assert(row[1] == v[0] && row[2] == v[1] && row[3] == v[2] && row[4] == v[3]);
        assert(row[5] == v[4] && row[6] == v[5] && row[7] == v[6] && row[8] == v[7]);
    }
    sums::lemma_sum_ext(n as int, f, e);
    poly::lemma_sum_eq_times(r, s);
    poly::lemma_mle_scale(g, lc, gl, r);
    poly::lemma_mle_plus(rc, gl, s, r);
    assert(t.columns[0] == poly::eq_table(r));
}

/// The openings cached by the prover satisfy the output claim: it is the value to which the
/// sumcheck reduces.
pub proof fn law_output<F: Field>(g: F, r: Seq<F>, cols: Seq<Seq<F>>, acc: Claims<F>, xs: Seq<F>)
    requires
        cols.len() == 8,
        xs.len() == r.len(),
    ensures
        output(
            g,
            r,
            cached(acc, xs, cols.map_values(|c: Seq<F>| poly::mle(c, xs.reverse())), 8),
            xs,
        ) == summand(g).value(sumcheck::final_row(table(g, r, cols).columns, xs)),
{
    let v = cols.map_values(|c: Seq<F>| poly::mle(c, xs.reverse()));
    let acc1 = cached(acc, xs, v, 8);
    let row = sumcheck::final_row(table(g, r, cols).columns, xs);
    reveal_with_fuel(Formula::value, 8);
    reveal_with_fuel(cached, 9);
    poly::lemma_mle_eq_table(r, xs.reverse());
    assert(reduced(acc1) =~= v);
    assert(row[0] == poly::mle(poly::eq_table(r), xs.reverse()));
    assert(row[1] == v[0] && row[2] == v[1] && row[3] == v[2] && row[4] == v[3]);
    assert(row[5] == v[4] && row[6] == v[5] && row[7] == v[6] && row[8] == v[7]);
}

} // verus!
