//! Increment claim reduction.
//!
//! The two `RamInc` openings and the two `RdInc` openings, made at four cycle points, are reduced
//! to one opening of each: the batched claim is the sum over all cycles `j` of
//! `RamInc(j) (eq(r2, j) + g eq(r4, j)) + g^2 RdInc(j) (eq(s4, j) + g eq(s5, j))`.

use crate::field;
use crate::field::Field;
use crate::framework::accumulator;
use crate::framework::accumulator::{Claims, CommittedPolynomial, OpeningId, Openings, SumcheckId};
use crate::framework::formula;
use crate::framework::formula::Formula;
use crate::framework::poly;
use crate::framework::poly::MultilinearPolynomial;
use crate::framework::sumcheck;
use crate::framework::sumcheck::{SumTable, VirtualSum};
use crate::framework::sums;
use crate::framework::transcript::Challenge;
use vstd::arithmetic::power2::pow2;
use vstd::prelude::*;

verus! {

/// The degree of the summed formula.
pub const DEGREE: usize = 2;

/// The powers of the batching challenge and the four points of the input claims.
#[derive(Debug)]
pub struct IncClaimReductionParams<F> {
    /// The first three powers of the challenge.
    pub gamma_powers: [F; 3],
    pub n_cycle_vars: usize,
    pub r_cycle_stage2: Vec<F>,
    pub r_cycle_stage4: Vec<F>,
    pub s_cycle_stage4: Vec<F>,
    pub s_cycle_stage5: Vec<F>,
}

/// The name of the first `RamInc` claim.
pub open spec fn ram_stage2() -> OpeningId {
    accumulator::comm(CommittedPolynomial::RamInc, SumcheckId::RamReadWriteChecking)
}

/// The name of the second `RamInc` claim.
pub open spec fn ram_stage4() -> OpeningId {
    accumulator::comm(CommittedPolynomial::RamInc, SumcheckId::RamValCheck)
}

/// The name of the first `RdInc` claim.
pub open spec fn rd_stage4() -> OpeningId {
    accumulator::comm(CommittedPolynomial::RdInc, SumcheckId::RegistersReadWriteChecking)
}

/// The name of the second `RdInc` claim.
pub open spec fn rd_stage5() -> OpeningId {
    accumulator::comm(CommittedPolynomial::RdInc, SumcheckId::RegistersValEvaluation)
}

/// The name of the reduced `RamInc` claim.
pub open spec fn ram_reduced() -> OpeningId {
    accumulator::comm(CommittedPolynomial::RamInc, SumcheckId::IncClaimReduction)
}

/// The name of the reduced `RdInc` claim.
pub open spec fn rd_reduced() -> OpeningId {
    accumulator::comm(CommittedPolynomial::RdInc, SumcheckId::IncClaimReduction)
}

/// The four input claims were recorded.
pub open spec fn has_input<F: Field>(acc: Claims<F>) -> bool {
    &&& acc.contains_key(ram_stage2())
    &&& acc.contains_key(ram_stage4())
    &&& acc.contains_key(rd_stage4())
    &&& acc.contains_key(rd_stage5())
}

/// `v1 + g v2 + g^2 w1 + g^3 w2`.
pub open spec fn batch<F: Field>(g: F, v1: F, v2: F, w1: F, w2: F) -> F {
    v1.plus(g.times(v2)).plus(g.times(g).times(w1)).plus(g.times(g).times(g).times(w2))
}

/// The batched input claim.
pub open spec fn input<F: Field>(g: F, acc: Claims<F>) -> F {
    batch(g, acc[ram_stage2()].1, acc[ram_stage4()].1, acc[rd_stage4()].1, acc[rd_stage5()].1)
}

/// The summed formula over the columns `ram_inc, rd_inc, eq_ram, eq_rd`.
pub open spec fn summand<F: Field>(g2: F) -> Formula<F> {
    formula::plus(
        formula::times(formula::col(0), formula::col(2)),
        formula::times(formula::times(formula::con(g2), formula::col(1)), formula::col(3)),
    )
}

/// The four points of the input claims.
#[verifier::reject_recursive_types(F)]
pub struct Points<F> {
    pub r2: Seq<F>,
    pub r4: Seq<F>,
    pub s4: Seq<F>,
    pub s5: Seq<F>,
}

impl<F: Field> Points<F> {
    /// Every point has `n` coordinates.
    pub open spec fn sized(self, n: nat) -> bool {
        self.r2.len() == n && self.r4.len() == n && self.s4.len() == n && self.s5.len() == n
    }
}

/// The table the prover sums.
pub open spec fn table<F: Field>(
    g: F,
    p: Points<F>,
    ram_inc: Seq<F>,
    rd_inc: Seq<F>,
) -> SumTable<F> {
    SumTable {
        columns: seq![
            ram_inc,
            rd_inc,
            poly::eq_pair_table(p.r2, p.r4, g),
            poly::eq_pair_table(p.s4, p.s5, g),
        ],
        formula: summand(g.times(g)),
    }
}

/// The claims after the two reduced openings are recorded at the reversed challenges.
pub open spec fn cached<F: Field>(acc: Claims<F>, xs: Seq<F>, ram: F, rd: F) -> Claims<F> {
    acc.insert(ram_reduced(), (xs.reverse(), ram)).insert(rd_reduced(), (xs.reverse(), rd))
}

/// The claim the reduced openings must satisfy.
pub open spec fn output<F: Field>(g: F, p: Points<F>, acc: Claims<F>, xs: Seq<F>) -> F {
    let y = xs.reverse();
    acc[ram_reduced()].1.times(
        poly::eq_mle(y, p.r2).plus(g.times(poly::eq_mle(y, p.r4))),
    ).plus(
        g.times(g).times(acc[rd_reduced()].1).times(
            poly::eq_mle(y, p.s4).plus(g.times(poly::eq_mle(y, p.s5))),
        ),
    )
}

impl<F: Field> IncClaimReductionParams<F> {
    /// The batching challenge.
    pub open spec fn gamma(self) -> F {
        self.gamma_powers@[0]
    }

    /// The powers belong to the challenge, and the points have one length.
    pub open spec fn wf(self) -> bool {
        let g = self.gamma();
        &&& self.gamma_powers@ == seq![g, g.times(g), g.times(g).times(g)]
        &&& self.points().sized(self.r_cycle_stage2@.len())
    }

    /// The four points.
    pub open spec fn points(self) -> Points<F> {
        Points {
            r2: self.r_cycle_stage2@,
            r4: self.r_cycle_stage4@,
            s4: self.s_cycle_stage4@,
            s5: self.s_cycle_stage5@,
        }
    }

    /// Draw the batching challenge and read the four points of the input claims.
    pub fn new<T: Challenge<F>>(
        n_cycle_vars: usize,
        accumulator: &Openings<F>,
        transcript: &mut T,
    ) -> (r: Self)
        requires
            has_input(accumulator@),
        ensures
            r.gamma() == old(transcript).state().next(),
            r.gamma_powers@ == seq![
                r.gamma(),
                r.gamma().times(r.gamma()),
                r.gamma().times(r.gamma()).times(r.gamma()),
            ],
            r.n_cycle_vars == n_cycle_vars,
            r.points() == (Points {
                r2: accumulator@[ram_stage2()].0,
                r4: accumulator@[ram_stage4()].0,
                s4: accumulator@[rd_stage4()].0,
                s5: accumulator@[rd_stage5()].0,
            }),
            final(transcript).state() == old(transcript).state().squeeze(),
    {
        let gamma: F = transcript.challenge();
        let gamma_sqr: F = gamma.mul(gamma);
        let gamma_cub: F = gamma_sqr.mul(gamma);
        let (r_cycle_stage2, _) = accumulator.get_committed_polynomial_opening(
            CommittedPolynomial::RamInc,
            SumcheckId::RamReadWriteChecking,
        );
        let (r_cycle_stage4, _) = accumulator.get_committed_polynomial_opening(
            CommittedPolynomial::RamInc,
            SumcheckId::RamValCheck,
        );
        let (s_cycle_stage4, _) = accumulator.get_committed_polynomial_opening(
            CommittedPolynomial::RdInc,
            SumcheckId::RegistersReadWriteChecking,
        );
        let (s_cycle_stage5, _) = accumulator.get_committed_polynomial_opening(
            CommittedPolynomial::RdInc,
            SumcheckId::RegistersValEvaluation,
        );
        let gamma_powers: [F; 3] = [gamma, gamma_sqr, gamma_cub];
        assert(gamma_powers@ =~= seq![gamma, gamma_sqr, gamma_cub]);
        IncClaimReductionParams {
            gamma_powers,
            n_cycle_vars,
            r_cycle_stage2,
            r_cycle_stage4,
            s_cycle_stage4,
            s_cycle_stage5,
        }
    }

    /// The batched input claim.
    pub fn input_claim(&self, accumulator: &Openings<F>) -> (r: F)
        requires
            self.wf(),
            has_input(accumulator@),
        ensures
            r == input(self.gamma(), accumulator@),
    {
        let v1: F = accumulator.committed_claim(
            CommittedPolynomial::RamInc,
            SumcheckId::RamReadWriteChecking,
        );
        let v2: F = accumulator.committed_claim(
            CommittedPolynomial::RamInc,
            SumcheckId::RamValCheck,
        );
        let w1: F = accumulator.committed_claim(
            CommittedPolynomial::RdInc,
            SumcheckId::RegistersReadWriteChecking,
        );
        let w2: F = accumulator.committed_claim(
            CommittedPolynomial::RdInc,
            SumcheckId::RegistersValEvaluation,
        );
        let g1: F = self.gamma_powers[0];
        let g2: F = self.gamma_powers[1];
        let g3: F = self.gamma_powers[2];
        v1.add(g1.mul(v2)).add(g2.mul(w1)).add(g3.mul(w2))
    }
}

/// `eq(a, .) + g eq(b, .)` as a column.
fn combine_eq<F: Field>(a: &[F], b: &[F], gamma: F) -> (r: Vec<F>)
    requires
        a@.len() == b@.len(),
        pow2(a@.len()) <= usize::MAX,
    ensures
        r@ == poly::eq_pair_table(a@, b@, gamma),
{
    let eq_a: Vec<F> = poly::eq_evals(a);
    let eq_b: Vec<F> = poly::eq_evals(b);
    let n: usize = eq_a.len();
    let mut out: Vec<F> = Vec::new();
    for i in 0..n
        invariant
            n == pow2(a@.len()),
            a@.len() == b@.len(),
            eq_a@ == poly::eq_table(a@),
            eq_b@ == poly::eq_table(b@),
            out@ == poly::eq_pair_table(a@, b@, gamma).take(i as int),
    {
        out.push(eq_a[i].add(gamma.mul(eq_b[i])));
        assert(out@ =~= poly::eq_pair_table(a@, b@, gamma).take(i + 1));
    }
    assert(out@ =~= poly::eq_pair_table(a@, b@, gamma));
    out
}

/// The reduction of the four increment claims to one point.
pub struct IncClaimReduction<F> {
    pub params: IncClaimReductionParams<F>,
    pub sum: VirtualSum<F>,
}

impl<F: Field> IncClaimReduction<F> {
    /// The prover's instance over the two increment columns.
    pub fn new_prover(
        params: IncClaimReductionParams<F>,
        ram_inc: Vec<F>,
        rd_inc: Vec<F>,
    ) -> (r: Self)
        requires
            params.wf(),
            pow2(params.r_cycle_stage2@.len()) <= usize::MAX,
        ensures
            r.params == params,
            r.sum@ == table(params.gamma(), params.points(), ram_inc@, rd_inc@),
    {
        let gamma: F = params.gamma_powers[0];
        let eq_ram: Vec<F> = combine_eq(&params.r_cycle_stage2, &params.r_cycle_stage4, gamma);
        let eq_rd: Vec<F> = combine_eq(&params.s_cycle_stage4, &params.s_cycle_stage5, gamma);
        let mut columns: Vec<MultilinearPolynomial<F>> = Vec::new();
        columns.push(MultilinearPolynomial::new(ram_inc));
        columns.push(MultilinearPolynomial::new(rd_inc));
        columns.push(MultilinearPolynomial::new(eq_ram));
        columns.push(MultilinearPolynomial::new(eq_rd));
        let sum: VirtualSum<F> = VirtualSum::new(
            columns,
            Formula::column(0)
                .product(Formula::column(2))
                .sum(
                    Formula::constant(params.gamma_powers[1])
                        .product(Formula::column(1))
                        .product(Formula::column(3)),
                ),
        );
        assert(sum@.columns =~= seq![
            ram_inc@,
            rd_inc@,
            poly::eq_pair_table(params.r_cycle_stage2@, params.r_cycle_stage4@, gamma),
            poly::eq_pair_table(params.s_cycle_stage4@, params.s_cycle_stage5@, gamma),
        ]);
        IncClaimReduction { params, sum }
    }

    /// The verifier's instance, which holds no columns.
    pub fn new_verifier(params: IncClaimReductionParams<F>) -> (r: Self)
        ensures
            r.params == params,
    {
        IncClaimReduction { params, sum: VirtualSum::empty() }
    }

    /// One round per cycle variable.
    pub fn num_rounds(&self) -> (r: usize)
        ensures
            r == self.params.n_cycle_vars,
    {
        self.params.n_cycle_vars
    }

    /// Record the two reduced openings of the fully bound columns.
    pub fn cache_openings(&self, accumulator: &mut Openings<F>, challenges: &[F])
        requires
            self.sum@.columns.len() == 4,
            self.sum@.columns[0].len() > 0,
            self.sum@.columns[1].len() > 0,
        ensures
            final(accumulator)@ == cached(
                old(accumulator)@,
                challenges@,
                self.sum@.columns[0][0],
                self.sum@.columns[1][0],
            ),
    {
        accumulator.append_dense(
            CommittedPolynomial::RamInc,
            SumcheckId::IncClaimReduction,
            poly::reversed(challenges),
            self.sum.bound_value(0),
        );
        accumulator.append_dense(
            CommittedPolynomial::RdInc,
            SumcheckId::IncClaimReduction,
            poly::reversed(challenges),
            self.sum.bound_value(1),
        );
    }

    /// The claim the reduced openings must satisfy.
    pub fn expected_output_claim(&self, accumulator: &Openings<F>, challenges: &[F]) -> (r: F)
        requires
            accumulator@.contains_key(ram_reduced()),
            accumulator@.contains_key(rd_reduced()),
            self.params.wf(),
            self.params.r_cycle_stage2@.len() == challenges@.len(),
        ensures
            r == output(self.params.gamma(), self.params.points(), accumulator@, challenges@),
    {
        let gamma: F = self.params.gamma_powers[0];
        let gamma_sqr: F = self.params.gamma_powers[1];
        let point: Vec<F> = poly::reversed(challenges);
        let eq_r2: F = poly::eq_at(&point, &self.params.r_cycle_stage2);
        let eq_r4: F = poly::eq_at(&point, &self.params.r_cycle_stage4);
        let eq_s4: F = poly::eq_at(&point, &self.params.s_cycle_stage4);
        let eq_s5: F = poly::eq_at(&point, &self.params.s_cycle_stage5);
        let ram: F = accumulator.committed_claim(
            CommittedPolynomial::RamInc,
            SumcheckId::IncClaimReduction,
        );
        let rd: F = accumulator.committed_claim(
            CommittedPolynomial::RdInc,
            SumcheckId::IncClaimReduction,
        );
        ram.mul(eq_r2.add(gamma.mul(eq_r4))).add(
            gamma_sqr.mul(rd).mul(eq_s4.add(gamma.mul(eq_s5))),
        )
    }
}

/// The table is shaped: its columns have one entry for every point, and the degree of its formula is
/// the one that the verifier allows.
pub proof fn law_table_shaped<F: Field>(g: F, p: Points<F>, ram_inc: Seq<F>, rd_inc: Seq<F>, n: nat)
    requires
        p.sized(n),
        ram_inc.len() == pow2(n),
        rd_inc.len() == pow2(n),
    ensures
        table(g, p, ram_inc, rd_inc).shaped(n),
        table(g, p, ram_inc, rd_inc).formula.degree() == DEGREE,
        field::all_valid(ram_inc) && field::all_valid(rd_inc) ==> table(
            g,
            p,
            ram_inc,
            rd_inc,
        ).canonical(),
{
    reveal_with_fuel(Formula::reads, 6);
    reveal_with_fuel(Formula::degree, 6);
    reveal_with_fuel(Formula::canonical, 6);
    poly::lemma_mle_eq_pair(p.r2, p.r4, g, p.r2);
    poly::lemma_mle_eq_pair(p.s4, p.s5, g, p.s4);
    F::law_valid(g, g);
}

/// The sum over the cycles is the batch of the four values of the increment columns.
pub proof fn law_total<F: Field>(g: F, p: Points<F>, ram_inc: Seq<F>, rd_inc: Seq<F>, n: nat)
    requires
        p.sized(n),
        ram_inc.len() == pow2(n),
        rd_inc.len() == pow2(n),
    ensures
        table(g, p, ram_inc, rd_inc).total() == batch(
            g,
            poly::mle(ram_inc, p.r2),
            poly::mle(ram_inc, p.r4),
            poly::mle(rd_inc, p.s4),
            poly::mle(rd_inc, p.s5),
        ),
{
    let t = table(g, p, ram_inc, rd_inc);
    let m = pow2(n) as int;
    let g2 = g.times(g);
    let er = poly::eq_pair_table(p.r2, p.r4, g);
    let ed = poly::eq_pair_table(p.s4, p.s5, g);
    let f = |i: int| t.formula.value(t.row(i));
    let fr = |i: int| ram_inc[i].times(er[i]);
    let fd = |i: int| rd_inc[i].times(ed[i]);
    let gd = |i: int| g2.times(fd(i));
    let h = |i: int| fr(i).plus(gd(i));
    assert forall|i: int| 0 <= i < m implies #[trigger] f(i) == h(i) by {
        reveal_with_fuel(Formula::value, 6);
        F::law_times_assoc(g2, rd_inc[i], ed[i]);
    }
    sums::lemma_sum_ext(m, f, h);
    sums::lemma_sum_plus(m, fr, gd);
    sums::lemma_sum_scale(m, g2, fd);
    poly::lemma_sum_eq_pair(ram_inc, p.r2, p.r4, g);
    poly::lemma_sum_eq_pair(rd_inc, p.s4, p.s5, g);
    let a = poly::mle(ram_inc, p.r2).plus(g.times(poly::mle(ram_inc, p.r4)));
    let w1 = poly::mle(rd_inc, p.s4);
    let w2 = poly::mle(rd_inc, p.s5);
    F::law_distrib(g2, w1, g.times(w2));
    F::law_times_assoc(g2, g, w2);
    F::law_plus_assoc(a, g2.times(w1), g2.times(g).times(w2));
}

/// The openings cached by the prover satisfy the output claim: it is the value to which the
/// sumcheck reduces.
pub proof fn law_output<F: Field>(
    g: F,
    p: Points<F>,
    ram_inc: Seq<F>,
    rd_inc: Seq<F>,
    acc: Claims<F>,
    xs: Seq<F>,
)
    requires
        p.sized(xs.len()),
    ensures
        output(
            g,
            p,
            cached(acc, xs, poly::mle(ram_inc, xs.reverse()), poly::mle(rd_inc, xs.reverse())),
            xs,
        ) == summand(g.times(g)).value(
            sumcheck::final_row(table(g, p, ram_inc, rd_inc).columns, xs),
        ),
{
    reveal_with_fuel(Formula::value, 6);
    poly::lemma_mle_eq_pair(p.r2, p.r4, g, xs.reverse());
    poly::lemma_mle_eq_pair(p.s4, p.s5, g, xs.reverse());
}

} // verus!
