//! RAM access claim reduction.
//!
//! The three `RamRa` openings share their address point and differ in their cycle points. They are
//! reduced to one opening: the batched claim is the sum over all cycles `c` of
//! `(eq(r_raf, c) + g eq(r_rw, c) + g^2 eq(r_val, c)) ra(c)`, where `ra` is the access column at
//! the shared address point.

use crate::field;
use crate::field::Field;
use crate::framework::accumulator;
use crate::framework::accumulator::{Claims, OpeningId, Openings, SumcheckId, VirtualPolynomial};
use crate::framework::formula;
use crate::framework::formula::Formula;
use crate::framework::poly;
use crate::framework::poly::MultilinearPolynomial;
use crate::framework::sumcheck;
use crate::framework::sumcheck::{SumTable, VirtualSum};
use crate::framework::sums;
use crate::framework::transcript::Challenge;
use vstd::arithmetic::power2::pow2;
use vstd::prelude::*;

verus! {

/// The degree of the summed formula.
pub const DEGREE: usize = 2;

/// The batching challenge, the shared address point and the three input claims.
#[derive(Debug)]
pub struct RamRaReductionParams<F> {
    pub gamma: F,
    pub gamma_squared: F,
    pub log_t: usize,
    pub log_k: usize,
    pub r_address: Vec<F>,
    pub r_cycle_raf: Vec<F>,
    pub r_cycle_rw: Vec<F>,
    pub r_cycle_val: Vec<F>,
    pub claim_raf: F,
    pub claim_rw: F,
    pub claim_val: F,
}

/// The name of the claim opened by the address-fingerprint sumcheck.
pub open spec fn raf_id() -> OpeningId {
    accumulator::virt(VirtualPolynomial::RamRa, SumcheckId::RamRafEvaluation)
}

/// The name of the claim opened by the read-write sumcheck.
pub open spec fn rw_id() -> OpeningId {
    accumulator::virt(VirtualPolynomial::RamRa, SumcheckId::RamReadWriteChecking)
}

/// The name of the claim opened by the value sumcheck.
pub open spec fn val_id() -> OpeningId {
    accumulator::virt(VirtualPolynomial::RamRa, SumcheckId::RamValCheck)
}

/// The name of the reduced claim.
pub open spec fn reduced_id() -> OpeningId {
    accumulator::virt(VirtualPolynomial::RamRa, SumcheckId::RamRaClaimReduction)
}

/// The three input claims were recorded, each at a point with at least `log_k` coordinates.
pub open spec fn has_input<F: Field>(acc: Claims<F>, log_k: nat) -> bool {
    &&& acc.contains_key(raf_id())
    &&& acc.contains_key(rw_id())
    &&& acc.contains_key(val_id())
    &&& acc[raf_id()].0.len() >= log_k
    &&& acc[rw_id()].0.len() >= log_k
    &&& acc[val_id()].0.len() >= log_k
}

/// `a + g b + h c`.
pub open spec fn batch<F: Field>(g: F, h: F, a: F, b: F, c: F) -> F {
    a.plus(g.times(b)).plus(h.times(c))
}

/// The three cycle points.
#[verifier::reject_recursive_types(F)]
pub struct Points<F> {
    pub raf: Seq<F>,
    pub rw: Seq<F>,
    pub val: Seq<F>,
}

impl<F: Field> Points<F> {
    /// Every point has `n` coordinates.
    pub open spec fn sized(self, n: nat) -> bool {
        self.raf.len() == n && self.rw.len() == n && self.val.len() == n
    }
}

/// The summed formula over the columns `ra, eq_raf, eq_rw, eq_val`.
pub open spec fn summand<F: Field>(g: F, h: F) -> Formula<F> {
    formula::times(
        formula::col(0),
        formula::plus(
            formula::plus(formula::col(1), formula::times(formula::con(g), formula::col(2))),
            formula::times(formula::con(h), formula::col(3)),
        ),
    )
}

/// The table the prover sums.
pub open spec fn table<F: Field>(g: F, h: F, p: Points<F>, ra: Seq<F>) -> SumTable<F> {
    SumTable {
        columns: seq![ra, poly::eq_table(p.raf), poly::eq_table(p.rw), poly::eq_table(p.val)],
        formula: summand(g, h),
    }
}

/// The claims after the reduced opening is recorded at the address point followed by the reversed
/// challenges.
pub open spec fn cached<F: Field>(
    acc: Claims<F>,
    r_address: Seq<F>,
    xs: Seq<F>,
    ra: F,
) -> Claims<F> {
    acc.insert(reduced_id(), (r_address + xs.reverse(), ra))
}

/// The claim the reduced opening must satisfy.
pub open spec fn output<F: Field>(g: F, h: F, p: Points<F>, acc: Claims<F>, xs: Seq<F>) -> F {
    let y = xs.reverse();
    batch(
        g,
        h,
        poly::eq_mle(p.raf, y),
        poly::eq_mle(p.rw, y),
        poly::eq_mle(p.val, y),
    ).times(acc[reduced_id()].1)
}

impl<F: Field> RamRaReductionParams<F> {
    /// The three cycle points.
    pub open spec fn points(self) -> Points<F> {
        Points { raf: self.r_cycle_raf@, rw: self.r_cycle_rw@, val: self.r_cycle_val@ }
    }

    /// Read the three input claims and draw the batching challenge.
    pub fn new<T: Challenge<F>>(
        log_t: usize,
        log_k: usize,
        accumulator: &Openings<F>,
        transcript: &mut T,
    ) -> (r: Self)
        requires
            has_input(accumulator@, log_k as nat),
        ensures
            r.gamma == old(transcript).state().next(),
            r.gamma_squared == r.gamma.times(r.gamma),
            r.log_t == log_t,
            r.log_k == log_k,
            r.r_address@ == accumulator@[raf_id()].0.take(log_k as int),
            r.points() == (Points {
                raf: accumulator@[raf_id()].0.skip(log_k as int),
                rw: accumulator@[rw_id()].0.skip(log_k as int),
                val: accumulator@[val_id()].0.skip(log_k as int),
            }),
            r.claim_raf == accumulator@[raf_id()].1,
            r.claim_rw == accumulator@[rw_id()].1,
            r.claim_val == accumulator@[val_id()].1,
            final(transcript).state() == old(transcript).state().squeeze(),
    {
        let ra: VirtualPolynomial = VirtualPolynomial::RamRa;
        let (r_raf, claim_raf) = accumulator.get_virtual_polynomial_opening(
            ra,
            SumcheckId::RamRafEvaluation,
        );
        let (r_rw, claim_rw) = accumulator.get_virtual_polynomial_opening(
            ra,
            SumcheckId::RamReadWriteChecking,
        );
        let (r_val, claim_val) = accumulator.get_virtual_polynomial_opening(
            ra,
            SumcheckId::RamValCheck,
        );
        let gamma: F = transcript.challenge();
        RamRaReductionParams {
            gamma,
            gamma_squared: gamma.mul(gamma),
            log_t,
            log_k,
            r_address: poly::range(&r_raf, 0, log_k),
            r_cycle_raf: poly::range(&r_raf, log_k, r_raf.len()),
            r_cycle_rw: poly::range(&r_rw, log_k, r_rw.len()),
            r_cycle_val: poly::range(&r_val, log_k, r_val.len()),
            claim_raf,
            claim_rw,
            claim_val,
        }
    }

    /// The batched input claim.
    pub fn input_claim(&self) -> (r: F)
        ensures
            r == batch(
                self.gamma,
                self.gamma_squared,
                self.claim_raf,
                self.claim_rw,
                self.claim_val,
            ),
    {
        self.claim_raf.add(self.gamma.mul(self.claim_rw)).add(
            self.gamma_squared.mul(self.claim_val),
        )
    }

    /// The full opening point: the address point followed by the reversed challenges.
    pub fn opening_point(&self, challenges: &[F]) -> (r: Vec<F>)
        ensures
            r@ == self.r_address@ + challenges@.reverse(),
    {
        let r_cycle: Vec<F> = poly::reversed(challenges);
        poly::concat(&self.r_address, &r_cycle)
    }
}

/// The reduction of the three access claims to one point.
pub struct RamRaClaimReduction<F> {
    pub params: RamRaReductionParams<F>,
    pub sum: VirtualSum<F>,
}

impl<F: Field> RamRaClaimReduction<F> {
    /// The prover's instance over the access column at the address point.
    pub fn new_prover(params: RamRaReductionParams<F>, ra: Vec<F>) -> (r: Self)
        requires
            pow2(params.r_cycle_raf@.len()) <= usize::MAX,
            pow2(params.r_cycle_rw@.len()) <= usize::MAX,
            pow2(params.r_cycle_val@.len()) <= usize::MAX,
        ensures
            r.params == params,
            r.sum@ == table(params.gamma, params.gamma_squared, params.points(), ra@),
    {
        let mut columns: Vec<MultilinearPolynomial<F>> = Vec::new();
        columns.push(MultilinearPolynomial::new(ra));
        columns.push(MultilinearPolynomial::new(poly::eq_evals(&params.r_cycle_raf)));
        columns.push(MultilinearPolynomial::new(poly::eq_evals(&params.r_cycle_rw)));
        columns.push(MultilinearPolynomial::new(poly::eq_evals(&params.r_cycle_val)));
        let sum: VirtualSum<F> = VirtualSum::new(
            columns,
            Formula::column(0)
                .product(
                    Formula::column(1)
                        .sum(Formula::constant(params.gamma).product(Formula::column(2)))
                        .sum(Formula::constant(params.gamma_squared).product(Formula::column(3))),
                ),
        );
        assert(sum@.columns =~= table(
            params.gamma,
            params.gamma_squared,
            params.points(),
            ra@,
        ).columns);
        RamRaClaimReduction { params, sum }
    }

    /// The verifier's instance, which holds no columns.
    pub fn new_verifier(params: RamRaReductionParams<F>) -> (r: Self)
        ensures
            r.params == params,
    {
        RamRaClaimReduction { params, sum: VirtualSum::empty() }
    }

    /// One round per cycle variable.
    pub fn num_rounds(&self) -> (r: usize)
        ensures
            r == self.params.log_t,
    {
        self.params.log_t
    }

    /// Record the reduced opening of the fully bound access column.
    pub fn cache_openings(&self, accumulator: &mut Openings<F>, challenges: &[F])
        requires
            self.sum@.columns.len() > 0,
            self.sum@.columns[0].len() > 0,
        ensures
            final(accumulator)@ == cached(
                old(accumulator)@,
                self.params.r_address@,
                challenges@,
                self.sum@.columns[0][0],
            ),
    {
        accumulator.append_virtual(
            VirtualPolynomial::RamRa,
            SumcheckId::RamRaClaimReduction,
            self.params.opening_point(challenges),
            self.sum.bound_value(0),
        );
    }

    /// The claim the reduced opening must satisfy.
    pub fn expected_output_claim(&self, accumulator: &Openings<F>, challenges: &[F]) -> (r: F)
        requires
            accumulator@.contains_key(reduced_id()),
            self.params.points().sized(challenges@.len()),
        ensures
            r == output(
                self.params.gamma,
                self.params.gamma_squared,
                self.params.points(),
                accumulator@,
                challenges@,
            ),
    {
        let point: Vec<F> = poly::reversed(challenges);
        let eq_raf: F = poly::eq_at(&self.params.r_cycle_raf, &point);
        let eq_rw: F = poly::eq_at(&self.params.r_cycle_rw, &point);
        let eq_val: F = poly::eq_at(&self.params.r_cycle_val, &point);
        let eq_combined: F = eq_raf.add(self.params.gamma.mul(eq_rw)).add(
            self.params.gamma_squared.mul(eq_val),
        );
        let ra: F = accumulator.virtual_claim(
            VirtualPolynomial::RamRa,
            SumcheckId::RamRaClaimReduction,
        );
        eq_combined.mul(ra)
    }
}

/// The table is shaped: its columns have one entry for every point, and the degree of its formula is
/// the one that the verifier allows.
pub proof fn law_table_shaped<F: Field>(g: F, h: F, p: Points<F>, ra: Seq<F>, n: nat)
    requires
        p.sized(n),
        ra.len() == pow2(n),
    ensures
        table(g, h, p, ra).shaped(n),
        table(g, h, p, ra).formula.degree() == DEGREE,
        g.valid() && h.valid() && field::all_valid(ra) ==> table(g, h, p, ra).canonical(),
{
    reveal_with_fuel(Formula::reads, 6);
    reveal_with_fuel(Formula::degree, 6);
    reveal_with_fuel(Formula::canonical, 6);
    poly::lemma_eq_table_valid(p.raf);
    poly::lemma_eq_table_valid(p.rw);
    poly::lemma_eq_table_valid(p.val);
}

/// The sum over the cycles is the batch of the access column's values at the three cycle points.
pub proof fn law_total<F: Field>(g: F, h: F, p: Points<F>, ra: Seq<F>, n: nat)
    requires
        p.sized(n),
        ra.len() == pow2(n),
    ensures
        table(g, h, p, ra).total() == batch(
            g,
            h,
            poly::mle(ra, p.raf),
            poly::mle(ra, p.rw),
            poly::mle(ra, p.val),
        ),
{
    let t = table(g, h, p, ra);
    let m = pow2(n) as int;
    let pair = poly::eq_pair_table(p.raf, p.rw, g);
    let f = |i: int| t.formula.value(t.row(i));
    let fp = |i: int| ra[i].times(pair[i]);
    let fv = |i: int| ra[i].times(poly::eq_weight(p.val, i));
    let hv = |i: int| h.times(fv(i));
    let k = |i: int| fp(i).plus(hv(i));
    assert forall|i: int| 0 <= i < m implies #[trigger] f(i) == k(i) by {
        reveal_with_fuel(Formula::value, 6);
        let e = poly::eq_weight(p.val, i);
        F::law_distrib(ra[i], pair[i], h.times(e));
        field::lemma_times_swap(ra[i], h, e);
    }
    sums::lemma_sum_ext(m, f, k);
    sums::lemma_sum_plus(m, fp, hv);
    sums::lemma_sum_scale(m, h, fv);
    poly::lemma_sum_eq_pair(ra, p.raf, p.rw, g);
}

/// The opening cached by the prover satisfies the output claim: it is the value to which the
/// sumcheck reduces.
pub proof fn law_output<F: Field>(
    g: F,
    h: F,
    p: Points<F>,
    ra: Seq<F>,
    acc: Claims<F>,
    r_address: Seq<F>,
    xs: Seq<F>,
)
    requires
        p.sized(xs.len()),
    ensures
        output(g, h, p, cached(acc, r_address, xs, poly::mle(ra, xs.reverse())), xs) == summand(
            g,
            h,
        ).value(sumcheck::final_row(table(g, h, p, ra).columns, xs)),
{
    let y = xs.reverse();
    reveal_with_fuel(Formula::value, 6);
    poly::lemma_mle_eq_table(p.raf, y);
    poly::lemma_mle_eq_table(p.rw, y);
    poly::lemma_mle_eq_table(p.val, y);
    F::law_times_comm(
        poly::mle(ra, y),
        batch(g, h, poly::eq_mle(p.raf, y), poly::eq_mle(p.rw, y), poly::eq_mle(p.val, y)),
    );
}

/// A changed reduced opening changes the output claim, unless its weight cancels the difference.
pub proof fn law_changed_opening<F: Field>(
    g: F,
    h: F,
    p: Points<F>,
    acc: Claims<F>,
    r_address: Seq<F>,
    xs: Seq<F>,
    ra: F,
    other: F,
)
    requires
        ({
            let y = xs.reverse();
            batch(
                g,
                h,
                poly::eq_mle(p.raf, y),
                poly::eq_mle(p.rw, y),
                poly::eq_mle(p.val, y),
            ).times(other.minus(ra)) != F::of_int(0)
        }),
    ensures
        output(g, h, p, cached(acc, r_address, xs, other), xs) != output(
            g,
            h,
            p,
            cached(acc, r_address, xs, ra),
            xs,
        ),
{
    let y = xs.reverse();
    field::lemma_weighted_apart(
        batch(g, h, poly::eq_mle(p.raf, y), poly::eq_mle(p.rw, y), poly::eq_mle(p.val, y)),
        ra,
        other,
    );
}

} // verus!
