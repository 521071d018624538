//! RAM read-write checking.
//!
//! Over all addresses `k` and cycles `j`, the sum of
//! `eq(r_cycle, j) ra(k, j) (Val(k, j) + g (Val(k, j) + inc(j)))` is the read-value claim plus `g`
//! times the write-value claim. The matrices are address-major (index `k T + j`); the cycle-only
//! columns are repeated for every address.

use crate::field;
use crate::field::Field;
use crate::framework::accumulator;
use crate::framework::accumulator::{
    Claims, CommittedPolynomial, OpeningId, Openings, SumcheckId, VirtualPolynomial,
};
use crate::framework::formula;
use crate::framework::formula::Formula;
use crate::framework::poly;
use crate::framework::poly::MultilinearPolynomial;
use crate::framework::sumcheck;
use crate::framework::sumcheck::{SumTable, VirtualSum};
use crate::framework::sums;
use crate::framework::transcript::Challenge;
use vstd::arithmetic::power2::pow2;
use vstd::prelude::*;

verus! {

/// The degree of the summed formula.
pub const DEGREE: usize = 3;

/// The batching challenge, the address width and the cycle point.
#[derive(Debug)]
pub struct RamReadWriteCheckingParams<F> {
    pub gamma: F,
    pub log_k: usize,
    pub r_cycle: Vec<F>,
}

/// The name of the read-value claim.
pub open spec fn read_id() -> OpeningId {
    accumulator::virt(VirtualPolynomial::RamReadValue, SumcheckId::SpartanOuter)
}

/// The name of the write-value claim.
pub open spec fn write_id() -> OpeningId {
    accumulator::virt(VirtualPolynomial::RamWriteValue, SumcheckId::SpartanOuter)
}

/// The name of the reduced value claim.
pub open spec fn val_id() -> OpeningId {
    accumulator::virt(VirtualPolynomial::RamVal, SumcheckId::RamReadWriteChecking)
}

/// The name of the reduced access claim.
pub open spec fn ra_id() -> OpeningId {
    accumulator::virt(VirtualPolynomial::RamRa, SumcheckId::RamReadWriteChecking)
}

/// The name of the reduced increment claim.
pub open spec fn inc_id() -> OpeningId {
    accumulator::comm(CommittedPolynomial::RamInc, SumcheckId::RamReadWriteChecking)
}

/// The batched input claim.
pub open spec fn input<F: Field>(g: F, acc: Claims<F>) -> F {
    acc[read_id()].1.plus(g.times(acc[write_id()].1))
}

/// The summed formula over the columns `eq, ra, val, inc`.
pub open spec fn summand<F: Field>(g: F) -> Formula<F> {
    formula::times(
        formula::times(formula::col(0), formula::col(1)),
        formula::plus(
            formula::col(2),
            formula::times(formula::con(g), formula::plus(formula::col(2), formula::col(3))),
        ),
    )
}

/// The table the prover sums.
pub open spec fn table<F: Field>(
    g: F,
    r: Seq<F>,
    ra: Seq<F>,
    val: Seq<F>,
    inc: Seq<F>,
) -> SumTable<F> {
    SumTable {
        columns: seq![
            poly::broadcast_column(poly::eq_table(r), ra.len()),
            ra,
            val,
            poly::broadcast_column(inc, ra.len()),
        ],
        formula: summand(g),
    }
}

/// The claims after the reduced openings are recorded: value and access at the full point, the
/// increment at its cycle part.
pub open spec fn cached<F: Field>(
    acc: Claims<F>,
    log_k: int,
    xs: Seq<F>,
    val: F,
    ra: F,
    inc: F,
) -> Claims<F> {
    let point = xs.reverse();
    acc.insert(val_id(), (point, val)).insert(ra_id(), (point, ra)).insert(
        inc_id(),
        (point.skip(log_k), inc),
    )
}

/// The claim the reduced openings must satisfy.
pub open spec fn output<F: Field>(g: F, r: Seq<F>, log_k: int, acc: Claims<F>, xs: Seq<F>) -> F {
    let v = acc[val_id()].1;
    poly::eq_mle(r, xs.reverse().skip(log_k)).times(acc[ra_id()].1).times(
        v.plus(g.times(v.plus(acc[inc_id()].1))),
    )
}

impl<F: Field> RamReadWriteCheckingParams<F> {
    /// Draw the batching challenge and read the cycle point of the read-value claim.
    pub fn new<T: Challenge<F>>(
        accumulator: &Openings<F>,
        log_k: usize,
        transcript: &mut T,
    ) -> (r: Self)
        requires
            accumulator@.contains_key(read_id()),
        ensures
            r.gamma == old(transcript).state().next(),
            r.log_k == log_k,
            r.r_cycle@ == accumulator@[read_id()].0,
            final(transcript).state() == old(transcript).state().squeeze(),
    {
        let gamma: F = transcript.challenge();
        let (r_cycle, _) = accumulator.get_virtual_polynomial_opening(
            VirtualPolynomial::RamReadValue,
            SumcheckId::SpartanOuter,
        );
        RamReadWriteCheckingParams { gamma, log_k, r_cycle }
    }

    /// The batched input claim.
    pub fn input_claim(&self, accumulator: &Openings<F>) -> (r: F)
        requires
            accumulator@.contains_key(read_id()),
            accumulator@.contains_key(write_id()),
        ensures
            r == input(self.gamma, accumulator@),
    {
        let rv: F = accumulator.virtual_claim(
            VirtualPolynomial::RamReadValue,
            SumcheckId::SpartanOuter,
        );
        let wv: F = accumulator.virtual_claim(
            VirtualPolynomial::RamWriteValue,
            SumcheckId::SpartanOuter,
        );
        rv.add(self.gamma.mul(wv))
    }
}

/// The RAM read-write consistency instance.
pub struct RamReadWriteChecking<F> {
    pub params: RamReadWriteCheckingParams<F>,
    pub sum: VirtualSum<F>,
}

impl<F: Field> RamReadWriteChecking<F> {
    /// The prover's instance over the address-major matrices and the increment column.
    pub fn new_prover(
        params: RamReadWriteCheckingParams<F>,
        ra: Vec<F>,
        val: Vec<F>,
        inc: Vec<F>,
    ) -> (r: Self)
        requires
            inc@.len() > 0,
            pow2(params.r_cycle@.len()) <= usize::MAX,
        ensures
            r.params == params,
            r.sum@ == table(params.gamma, params.r_cycle@, ra@, val@, inc@),
    {
        let size: usize = ra.len();
        let eq_cycle: Vec<F> = poly::eq_evals(&params.r_cycle);
        proof {
            vstd::arithmetic::power2::lemma_pow2_pos(params.r_cycle@.len());
        }
        let eq_full: Vec<F> = poly::broadcast(&eq_cycle, size);
        let inc_full: Vec<F> = poly::broadcast(&inc, size);
        let mut columns: Vec<MultilinearPolynomial<F>> = Vec::new();
        columns.push(MultilinearPolynomial::new(eq_full));
        columns.push(MultilinearPolynomial::new(ra));
        columns.push(MultilinearPolynomial::new(val));
        columns.push(MultilinearPolynomial::new(inc_full));
        let sum: VirtualSum<F> = VirtualSum::new(
            columns,
            Formula::column(0)
                .product(Formula::column(1))
                .product(
                    Formula::column(2)
                        .sum(
                            Formula::constant(params.gamma)
                                .product(Formula::column(2).sum(Formula::column(3))),
                        ),
                ),
        );
        assert(sum@.columns =~= table(params.gamma, params.r_cycle@, ra@, val@, inc@).columns);
        RamReadWriteChecking { params, sum }
    }

    /// The verifier's instance, which holds no columns to sum.
    pub fn new_verifier(params: RamReadWriteCheckingParams<F>) -> (r: Self)
        ensures
            r.params == params,
    {
        Self { params, sum: VirtualSum::empty() }
    }

    /// One round per cycle variable and per address variable.
    pub fn num_rounds(&self) -> (r: usize)
        requires
            self.params.log_k + self.params.r_cycle@.len() <= usize::MAX,
        ensures
            r == self.params.log_k + self.params.r_cycle@.len(),
    {
        self.params.log_k + self.params.r_cycle.len()
    }

    /// Record the reduced openings of the fully bound columns.
    pub fn cache_openings(&self, accumulator: &mut Openings<F>, challenges: &[F])
        requires
            self.sum@.columns.len() == 4,
            forall|c: int| 0 <= c < 4 ==> (#[trigger] self.sum@.columns[c]).len() > 0,
            self.params.log_k <= challenges@.len(),
        ensures
            final(accumulator)@ == cached(
                old(accumulator)@,
                self.params.log_k as int,
                challenges@,
                self.sum@.columns[2][0],
                self.sum@.columns[1][0],
                self.sum@.columns[3][0],
            ),
    {
        let id: SumcheckId = SumcheckId::RamReadWriteChecking;
        let val: F = self.sum.bound_value(2);
        let ra: F = self.sum.bound_value(1);
        let inc: F = self.sum.bound_value(3);
        let point: Vec<F> = poly::reversed(challenges);
        let r_cycle: Vec<F> = poly::range(&point, self.params.log_k, point.len());
        accumulator.append_virtual(VirtualPolynomial::RamVal, id, poly::copied(&point), val);
        accumulator.append_virtual(VirtualPolynomial::RamRa, id, point, ra);
        accumulator.append_dense(CommittedPolynomial::RamInc, id, r_cycle, inc);
    }

    /// The claim the reduced openings must satisfy.
    pub fn expected_output_claim(&self, accumulator: &Openings<F>, challenges: &[F]) -> (r: F)
        requires
            accumulator@.contains_key(val_id()),
            accumulator@.contains_key(ra_id()),
            accumulator@.contains_key(inc_id()),
            challenges@.len() == self.params.log_k + self.params.r_cycle@.len(),
        ensures
            r == output(
                self.params.gamma,
                self.params.r_cycle@,
                self.params.log_k as int,
                accumulator@,
                challenges@,
            ),
    {
        let id: SumcheckId = SumcheckId::RamReadWriteChecking;
        let point: Vec<F> = poly::reversed(challenges);
        let r_cycle: Vec<F> = poly::range(&point, self.params.log_k, point.len());
        let eq_eval: F = poly::eq_at(&self.params.r_cycle, &r_cycle);
        let ra: F = accumulator.virtual_claim(VirtualPolynomial::RamRa, id);
        let val: F = accumulator.virtual_claim(VirtualPolynomial::RamVal, id);
        let inc: F = accumulator.committed_claim(CommittedPolynomial::RamInc, id);
        eq_eval.mul(ra).mul(val.add(self.params.gamma.mul(val.add(inc))))
    }
}

/// The table is shaped: its columns have one entry for every point, and the degree of its formula is
/// the one that the verifier allows.
pub proof fn law_table_shaped<F: Field>(
    g: F,
    r: Seq<F>,
    ra: Seq<F>,
    val: Seq<F>,
    inc: Seq<F>,
    n: nat,
)
    requires
        ra.len() == pow2(n),
        val.len() == pow2(n),
        inc.len() == pow2(r.len()),
    ensures
        table(g, r, ra, val, inc).shaped(n),
        table(g, r, ra, val, inc).formula.degree() == DEGREE,
        g.valid() && field::all_valid(ra) && field::all_valid(val) && field::all_valid(inc)
            ==> table(g, r, ra, val, inc).canonical(),
{
    reveal_with_fuel(Formula::reads, 8);
    reveal_with_fuel(Formula::degree, 8);
    reveal_with_fuel(Formula::canonical, 8);
    poly::lemma_eq_table_valid(r);
    poly::lemma_broadcast_valid(poly::eq_table(r), ra.len());
    poly::lemma_broadcast_valid(inc, ra.len());
}

/// The sum of the read values weighted by the cycle point.
pub open spec fn read_sum<F: Field>(r: Seq<F>, ra: Seq<F>, val: Seq<F>) -> F {
    let eq = poly::broadcast_column(poly::eq_table(r), ra.len());
    sums::sum(ra.len() as int, |i: int| eq[i].times(ra[i]).times(val[i]))
}

/// The sum of the written values weighted by the cycle point.
pub open spec fn write_sum<F: Field>(r: Seq<F>, ra: Seq<F>, val: Seq<F>, inc: Seq<F>) -> F {
    let eq = poly::broadcast_column(poly::eq_table(r), ra.len());
    let all = poly::broadcast_column(inc, ra.len());
    sums::sum(ra.len() as int, |i: int| eq[i].times(ra[i]).times(val[i].plus(all[i])))
}

/// The summed relation: reads plus `g` times writes.
pub proof fn law_total<F: Field>(g: F, r: Seq<F>, ra: Seq<F>, val: Seq<F>, inc: Seq<F>)
    ensures
        table(g, r, ra, val, inc).total() == read_sum(r, ra, val).plus(
            g.times(write_sum(r, ra, val, inc)),
        ),
{
    let t = table(g, r, ra, val, inc);
    let m = ra.len() as int;
    let eq = poly::broadcast_column(poly::eq_table(r), ra.len());
    let all = poly::broadcast_column(inc, ra.len());
    let f = |i: int| t.formula.value(t.row(i));
    let fr = |i: int| eq[i].times(ra[i]).times(val[i]);
    let fw = |i: int| eq[i].times(ra[i]).times(val[i].plus(all[i]));
    let gw = |i: int| g.times(fw(i));
    let h = |i: int| fr(i).plus(gw(i));
    assert(t.columns[0].len() == m);
    assert forall|i: int| 0 <= i < m implies #[trigger] f(i) == h(i) by {
        reveal_with_fuel(Formula::value, 8);
        let a = eq[i].times(ra[i]);
        let w = val[i].plus(all[i]);
        F::law_distrib(a, val[i], g.times(w));
        field::lemma_times_swap(a, g, w);
    }
    sums::lemma_sum_ext(m, f, h);
    sums::lemma_sum_plus(m, fr, gw);
    sums::lemma_sum_scale(m, g, fw);
}

/// The openings cached by the prover satisfy the output claim: it is the value to which the
/// sumcheck reduces. The increment opened at the cycle part is the column's own extension.
pub proof fn law_output<F: Field>(
    g: F,
    r: Seq<F>,
    ra: Seq<F>,
    val: Seq<F>,
    inc: Seq<F>,
    acc: Claims<F>,
    log_k: nat,
    xs: Seq<F>,
)
    requires
        xs.len() == log_k + r.len(),
        ra.len() == pow2(xs.len()),
        inc.len() == pow2(r.len()),
        field::all_valid(inc),
    ensures
        ({
            let y = xs.reverse();
            let row = sumcheck::final_row(table(g, r, ra, val, inc).columns, xs);
            &&& row[3] == poly::mle(inc, y.skip(log_k as int))
            &&& output(g, r, log_k as int, cached(acc, log_k as int, xs, row[2], row[1], row[3]), xs)
                == summand(g).value(row)
        }),
{
    let y = xs.reverse();
    reveal_with_fuel(Formula::value, 8);
    poly::lemma_eq_table_valid(r);
    poly::lemma_mle_broadcast(poly::eq_table(r), y, log_k);
    poly::lemma_mle_broadcast(inc, y, log_k);
    poly::lemma_mle_eq_table(r, y.skip(log_k as int));
}

} // verus!
