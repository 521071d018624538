//! Register read-write checking.
//!
//! Over all registers `k` and cycles `j`, the sum of
//! `eq(r_cycle, j) ((g ra1(k, j) + g^2 ra2(k, j)) Val(k, j) + wa(k, j) (Val(k, j) + inc(j)))` is the
//! write-value claim plus `g` times the first and `g^2` times the second read-value claim. The
//! matrices are address-major (index `k T + j`); the cycle-only columns are repeated for every
//! register.

use crate::field;
use crate::field::Field;
use crate::framework::accumulator;
use crate::framework::accumulator::{
    Claims, CommittedPolynomial, OpeningId, Openings, SumcheckId, VirtualPolynomial,
};
use crate::framework::formula;
use crate::framework::formula::Formula;
use crate::framework::poly;
use crate::framework::poly::MultilinearPolynomial;
use crate::framework::sumcheck;
use crate::framework::sumcheck::{SumTable, VirtualSum};
use crate::framework::sums;
use crate::framework::transcript::Challenge;
use vstd::arithmetic::power2::pow2;
use vstd::prelude::*;

verus! {

/// The degree of the summed formula.
pub const DEGREE: usize = 3;

/// The batching challenge, the register-address width and the cycle point.
#[derive(Debug)]
pub struct RegistersReadWriteCheckingParams<F> {
    pub gamma: F,
    pub log_k: usize,
    pub r_cycle: Vec<F>,
}

/// The name of the input claim about `RdWriteValue`.
pub open spec fn rd_id() -> OpeningId {
    accumulator::virt(VirtualPolynomial::RdWriteValue, SumcheckId::RegistersClaimReduction)
}

/// The name of the input claim about `Rs1Value`.
pub open spec fn rs1_id() -> OpeningId {
    accumulator::virt(VirtualPolynomial::Rs1Value, SumcheckId::RegistersClaimReduction)
}

/// The name of the input claim about `Rs2Value`.
pub open spec fn rs2_id() -> OpeningId {
    accumulator::virt(VirtualPolynomial::Rs2Value, SumcheckId::RegistersClaimReduction)
}

/// The name of the reduced value claim.
pub open spec fn val_id() -> OpeningId {
    accumulator::virt(VirtualPolynomial::RegistersVal, SumcheckId::RegistersReadWriteChecking)
}

/// The name of the reduced first read claim.
pub open spec fn rs1_ra_id() -> OpeningId {
    accumulator::virt(VirtualPolynomial::Rs1Ra, SumcheckId::RegistersReadWriteChecking)
}

/// The name of the reduced second read claim.
pub open spec fn rs2_ra_id() -> OpeningId {
    accumulator::virt(VirtualPolynomial::Rs2Ra, SumcheckId::RegistersReadWriteChecking)
}

/// The name of the reduced write claim.
pub open spec fn rd_wa_id() -> OpeningId {
    accumulator::virt(VirtualPolynomial::RdWa, SumcheckId::RegistersReadWriteChecking)
}

/// The name of the reduced increment claim.
pub open spec fn inc_id() -> OpeningId {
    accumulator::comm(CommittedPolynomial::RdInc, SumcheckId::RegistersReadWriteChecking)
}

/// The three input claims were recorded.
pub open spec fn has_input<F: Field>(acc: Claims<F>) -> bool {
    acc.contains_key(rd_id()) && acc.contains_key(rs1_id()) && acc.contains_key(rs2_id())
}

/// The five reduced claims were recorded.
pub open spec fn has_output<F: Field>(acc: Claims<F>) -> bool {
    &&& acc.contains_key(val_id())
    &&& acc.contains_key(rs1_ra_id())
    &&& acc.contains_key(rs2_ra_id())
    &&& acc.contains_key(rd_wa_id())
    &&& acc.contains_key(inc_id())
}

/// `a + g (b + g c)`.
pub open spec fn batch<F: Field>(g: F, a: F, b: F, c: F) -> F {
    a.plus(g.times(b.plus(g.times(c))))
}

/// The batched input claim.
pub open spec fn input<F: Field>(g: F, acc: Claims<F>) -> F {
    batch(g, acc[rd_id()].1, acc[rs1_id()].1, acc[rs2_id()].1)
}

/// The register-file matrices and the increment column.
#[verifier::reject_recursive_types(F)]
pub struct Matrices<F> {
    pub ra1: Seq<F>,
    pub ra2: Seq<F>,
    pub wa: Seq<F>,
    pub val: Seq<F>,
    pub inc: Seq<F>,
}

impl<F: Field> Matrices<F> {
    /// The matrices have `2^n` entries, the increment column `2^t`.
    pub open spec fn sized(self, n: nat, t: nat) -> bool {
        &&& self.ra1.len() == pow2(n)
        &&& self.ra2.len() == pow2(n)
        &&& self.wa.len() == pow2(n)
        &&& self.val.len() == pow2(n)
        &&& self.inc.len() == pow2(t)
    }

    /// Every entry is canonical.
    pub open spec fn canonical(self) -> bool {
        &&& field::all_valid(self.ra1)
        &&& field::all_valid(self.ra2)
        &&& field::all_valid(self.wa)
        &&& field::all_valid(self.val)
        &&& field::all_valid(self.inc)
    }
}

/// The summed formula over the columns `eq, ra1, ra2, wa, val, inc`.
pub open spec fn summand<F: Field>(g: F, h: F) -> Formula<F> {
    formula::times(
        formula::col(0),
        formula::plus(
            formula::times(
                formula::plus(
                    formula::times(formula::con(g), formula::col(1)),
                    formula::times(formula::con(h), formula::col(2)),
                ),
                formula::col(4),
            ),
            formula::times(formula::col(3), formula::plus(formula::col(4), formula::col(5))),
        ),
    )
}

/// The table the prover sums.
pub open spec fn table<F: Field>(g: F, h: F, r: Seq<F>, m: Matrices<F>) -> SumTable<F> {
    SumTable {
        columns: seq![
            poly::broadcast_column(poly::eq_table(r), m.ra1.len()),
            m.ra1,
            m.ra2,
            m.wa,
            m.val,
            poly::broadcast_column(m.inc, m.ra1.len()),
        ],
        formula: summand(g, h),
    }
}

/// The values of the five reduced openings.
#[verifier::reject_recursive_types(F)]
pub struct Reduced<F> {
    pub val: F,
    pub rs1_ra: F,
    pub rs2_ra: F,
    pub rd_wa: F,
    pub inc: F,
}

/// The claims after the reduced openings are recorded: the matrices at the full point, the
/// increment at its cycle part.
pub open spec fn cached<F: Field>(
    acc: Claims<F>,
    log_k: int,
    xs: Seq<F>,
    v: Reduced<F>,
) -> Claims<F> {
    let point = xs.reverse();
    acc.insert(val_id(), (point, v.val)).insert(rs1_ra_id(), (point, v.rs1_ra)).insert(
        rs2_ra_id(),
        (point, v.rs2_ra),
    ).insert(rd_wa_id(), (point, v.rd_wa)).insert(inc_id(), (point.skip(log_k), v.inc))
}

/// The claim the reduced openings must satisfy.
pub open spec fn output<F: Field>(g: F, r: Seq<F>, log_k: int, acc: Claims<F>, xs: Seq<F>) -> F {
    let v = acc[val_id()].1;
    poly::eq_mle(xs.reverse().skip(log_k), r).times(
        batch(
            g,
            acc[rd_wa_id()].1.times(acc[inc_id()].1.plus(v)),
            acc[rs1_ra_id()].1.times(v),
            acc[rs2_ra_id()].1.times(v),
        ),
    )
}

impl<F: Field> RegistersReadWriteCheckingParams<F> {
    /// Draw the batching challenge and read the cycle point of the write-value claim.
    pub fn new<T: Challenge<F>>(
        accumulator: &Openings<F>,
        log_k: usize,
        transcript: &mut T,
    ) -> (r: Self)
        requires
            accumulator@.contains_key(rd_id()),
        ensures
            r.gamma == old(transcript).state().next(),
            r.log_k == log_k,
            r.r_cycle@ == accumulator@[rd_id()].0,
            final(transcript).state() == old(transcript).state().squeeze(),
    {
        let gamma: F = transcript.challenge();
        let (r_cycle, _) = accumulator.get_virtual_polynomial_opening(
            VirtualPolynomial::RdWriteValue,
            SumcheckId::RegistersClaimReduction,
        );
        RegistersReadWriteCheckingParams { gamma, log_k, r_cycle }
    }

    /// The batched input claim.
    pub fn input_claim(&self, accumulator: &Openings<F>) -> (r: F)
        requires
            has_input(accumulator@),
        ensures
            r == input(self.gamma, accumulator@),
    {
        let id: SumcheckId = SumcheckId::RegistersClaimReduction;
        let rd_wv: F = accumulator.virtual_claim(VirtualPolynomial::RdWriteValue, id);
        let rs1_rv: F = accumulator.virtual_claim(VirtualPolynomial::Rs1Value, id);
        let rs2_rv: F = accumulator.virtual_claim(VirtualPolynomial::Rs2Value, id);
        rd_wv.add(self.gamma.mul(rs1_rv.add(self.gamma.mul(rs2_rv))))
    }
}

/// The register read-write consistency instance.
pub struct RegistersReadWriteChecking<F> {
    pub params: RegistersReadWriteCheckingParams<F>,
    pub sum: VirtualSum<F>,
}

impl<F: Field> RegistersReadWriteChecking<F> {
    /// The prover's instance over the address-major matrices and the increment column.
    pub fn new_prover(
        params: RegistersReadWriteCheckingParams<F>,
        ra1: Vec<F>,
        ra2: Vec<F>,
        wa: Vec<F>,
        val: Vec<F>,
        inc: Vec<F>,
    ) -> (r: Self)
        requires
            inc@.len() > 0,
            pow2(params.r_cycle@.len()) <= usize::MAX,
        ensures
            r.params == params,
            r.sum@ == table(
                params.gamma,
                params.gamma.times(params.gamma),
                params.r_cycle@,
                (Matrices { ra1: ra1@, ra2: ra2@, wa: wa@, val: val@, inc: inc@ }),
            ),
    {
        let size: usize = ra1.len();
        let eq_cycle: Vec<F> = poly::eq_evals(&params.r_cycle);
        proof {
            vstd::arithmetic::power2::lemma_pow2_pos(params.r_cycle@.len());
        }
        let eq_full: Vec<F> = poly::broadcast(&eq_cycle, size);
        let inc_full: Vec<F> = poly::broadcast(&inc, size);
        let gamma_sq: F = params.gamma.mul(params.gamma);
        let mut columns: Vec<MultilinearPolynomial<F>> = Vec::new();
        columns.push(MultilinearPolynomial::new(eq_full));
        columns.push(MultilinearPolynomial::new(ra1));
        columns.push(MultilinearPolynomial::new(ra2));
        columns.push(MultilinearPolynomial::new(wa));
        columns.push(MultilinearPolynomial::new(val));
        columns.push(MultilinearPolynomial::new(inc_full));
        let sum: VirtualSum<F> = VirtualSum::new(
            columns,
            Formula::column(0)
                .product(
                    Formula::constant(params.gamma)
                        .product(Formula::column(1))
                        .sum(Formula::constant(gamma_sq).product(Formula::column(2)))
                        .product(Formula::column(4))
                        .sum(
                            Formula::column(3).product(Formula::column(4).sum(Formula::column(5))),
                        ),
                ),
        );
        assert(sum@.columns =~= table(
            params.gamma,
            gamma_sq,
            params.r_cycle@,
            Matrices { ra1: ra1@, ra2: ra2@, wa: wa@, val: val@, inc: inc@ },
        ).columns);
        RegistersReadWriteChecking { params, sum }
    }

    /// The verifier's instance, which holds no columns to sum.
    pub fn new_verifier(params: RegistersReadWriteCheckingParams<F>) -> (r: Self)
        ensures
            r.params == params,
    {
        Self { params, sum: VirtualSum::empty() }
    }

    /// One round per cycle variable and per register-address variable.
    pub fn num_rounds(&self) -> (r: usize)
        requires
            self.params.log_k + self.params.r_cycle@.len() <= usize::MAX,
        ensures
            r == self.params.log_k + self.params.r_cycle@.len(),
    {
        self.params.log_k + self.params.r_cycle.len()
    }

    /// Record the reduced openings of the fully bound columns.
    pub fn cache_openings(&self, accumulator: &mut Openings<F>, challenges: &[F])
        requires
            self.sum@.columns.len() == 6,
            forall|c: int| 0 <= c < 6 ==> (#[trigger] self.sum@.columns[c]).len() > 0,
            self.params.log_k <= challenges@.len(),
        ensures
            final(accumulator)@ == cached(
                old(accumulator)@,
                self.params.log_k as int,
                challenges@,
                (Reduced {
                    val: self.sum@.columns[4][0],
                    rs1_ra: self.sum@.columns[1][0],
                    rs2_ra: self.sum@.columns[2][0],
                    rd_wa: self.sum@.columns[3][0],
                    inc: self.sum@.columns[5][0],
                }),
            ),
    {
        let id: SumcheckId = SumcheckId::RegistersReadWriteChecking;
        let rs1_ra: F = self.sum.bound_value(1);
        let rs2_ra: F = self.sum.bound_value(2);
        let rd_wa: F = self.sum.bound_value(3);
        let val: F = self.sum.bound_value(4);
        let inc: F = self.sum.bound_value(5);
        let point: Vec<F> = poly::reversed(challenges);
        let r_cycle: Vec<F> = poly::range(&point, self.params.log_k, point.len());
        accumulator.append_virtual(VirtualPolynomial::RegistersVal, id, poly::copied(&point), val);
        accumulator.append_virtual(VirtualPolynomial::Rs1Ra, id, poly::copied(&point), rs1_ra);
        accumulator.append_virtual(VirtualPolynomial::Rs2Ra, id, poly::copied(&point), rs2_ra);
        accumulator.append_virtual(VirtualPolynomial::RdWa, id, point, rd_wa);
        accumulator.append_dense(CommittedPolynomial::RdInc, id, r_cycle, inc);
    }

    /// The claim the reduced openings must satisfy.
    pub fn expected_output_claim(&self, accumulator: &Openings<F>, challenges: &[F]) -> (r: F)
        requires
            has_output(accumulator@),
            challenges@.len() == self.params.log_k + self.params.r_cycle@.len(),
        ensures
            r == output(
                self.params.gamma,
                self.params.r_cycle@,
                self.params.log_k as int,
                accumulator@,
                challenges@,
            ),
    {
        let id: SumcheckId = SumcheckId::RegistersReadWriteChecking;
        let gamma: F = self.params.gamma;
        let point: Vec<F> = poly::reversed(challenges);
        let r_cycle: Vec<F> = poly::range(&point, self.params.log_k, point.len());
        let eq_eval: F = poly::eq_at(&r_cycle, &self.params.r_cycle);
        let val: F = accumulator.virtual_claim(VirtualPolynomial::RegistersVal, id);
        let rs1_ra: F = accumulator.virtual_claim(VirtualPolynomial::Rs1Ra, id);
        let rs2_ra: F = accumulator.virtual_claim(VirtualPolynomial::Rs2Ra, id);
        let rd_wa: F = accumulator.virtual_claim(VirtualPolynomial::RdWa, id);
        let inc: F = accumulator.committed_claim(CommittedPolynomial::RdInc, id);
        let rd_write_value: F = rd_wa.mul(inc.add(val));
        let rs1_value: F = rs1_ra.mul(val);
        let rs2_value: F = rs2_ra.mul(val);
        eq_eval.mul(rd_write_value.add(gamma.mul(rs1_value.add(gamma.mul(rs2_value)))))
    }
}

/// The table is shaped: its columns have one entry for every point, and the degree of its formula is
/// the one that the verifier allows.
pub proof fn law_table_shaped<F: Field>(g: F, h: F, r: Seq<F>, m: Matrices<F>, n: nat)
    requires
        m.sized(n, r.len()),
    ensures
        table(g, h, r, m).shaped(n),
        table(g, h, r, m).formula.degree() == DEGREE,
        g.valid() && h.valid() && m.canonical() ==> table(g, h, r, m).canonical(),
{
    reveal_with_fuel(Formula::reads, 8);
    reveal_with_fuel(Formula::degree, 8);
    reveal_with_fuel(Formula::canonical, 8);
    poly::lemma_eq_table_valid(r);
    poly::lemma_broadcast_valid(poly::eq_table(r), m.ra1.len());
    poly::lemma_broadcast_valid(m.inc, m.ra1.len());
}

/// `(g a + g^2 b) v + w (v + i) = w (i + v) + g (a v + g (b v))`.
proof fn lemma_merge<F: Field>(g: F, a: F, b: F, w: F, v: F, i: F)
    ensures
        g.times(a).plus(g.times(g).times(b)).times(v).plus(w.times(v.plus(i))) == batch(
            g,
            w.times(i.plus(v)),
            a.times(v),
            b.times(v),
        ),
{
    let av = a.times(v);
    let bv = b.times(v);
    field::lemma_distrib_right(v, g.times(a), g.times(g).times(b));
    F::law_times_assoc(g, a, v);
    F::law_times_assoc(g.times(g), b, v);
    F::law_times_assoc(g, g, bv);
    F::law_distrib(g, av, g.times(bv));
    F::law_plus_comm(v, i);
    F::law_plus_comm(g.times(av.plus(g.times(bv))), w.times(i.plus(v)));
}

/// The sum of the written values weighted by the cycle point.
pub open spec fn write_sum<F: Field>(r: Seq<F>, m: Matrices<F>) -> F {
    let eq = poly::broadcast_column(poly::eq_table(r), m.ra1.len());
    let all = poly::broadcast_column(m.inc, m.ra1.len());
    sums::sum(
        m.ra1.len() as int,
        |i: int| eq[i].times(m.wa[i].times(all[i].plus(m.val[i]))),
    )
}

/// The sum of the values read through the indicator `ra`, weighted by the cycle point.
pub open spec fn read_sum<F: Field>(r: Seq<F>, ra: Seq<F>, val: Seq<F>) -> F {
    let eq = poly::broadcast_column(poly::eq_table(r), ra.len());
    sums::sum(ra.len() as int, |i: int| eq[i].times(ra[i].times(val[i])))
}

/// The summed relation: writes plus `g` times the first reads plus `g^2` times the second reads.
pub proof fn law_total<F: Field>(g: F, r: Seq<F>, m: Matrices<F>)
    requires
        m.ra2.len() == m.ra1.len(),
    ensures
        table(g, g.times(g), r, m).total() == batch(
            g,
            write_sum(r, m),
            read_sum(r, m.ra1, m.val),
            read_sum(r, m.ra2, m.val),
        ),
{
    let t = table(g, g.times(g), r, m);
    let n = m.ra1.len() as int;
    let eq = poly::broadcast_column(poly::eq_table(r), m.ra1.len());
    let all = poly::broadcast_column(m.inc, m.ra1.len());
    let f = |i: int| t.formula.value(t.row(i));
    let fw = |i: int| eq[i].times(m.wa[i].times(all[i].plus(m.val[i])));
    let f1 = |i: int| eq[i].times(m.ra1[i].times(m.val[i]));
    let f2 = |i: int| eq[i].times(m.ra2[i].times(m.val[i]));
    let g2 = |i: int| g.times(f2(i));
    let s = |i: int| f1(i).plus(g2(i));
    let gs = |i: int| g.times(s(i));
    let h = |i: int| fw(i).plus(gs(i));
    assert(t.columns[0].len() == n);
    assert forall|i: int| 0 <= i < n implies #[trigger] f(i) == h(i) by {
        reveal_with_fuel(Formula::value, 8);
        lemma_merge(g, m.ra1[i], m.ra2[i], m.wa[i], m.val[i], all[i]);
        let e = eq[i];
        let w = m.wa[i].times(all[i].plus(m.val[i]));
        let a = m.ra1[i].times(m.val[i]);
        let b = m.ra2[i].times(m.val[i]);
        F::law_distrib(e, w, g.times(a.plus(g.times(b))));
        field::lemma_times_swap(e, g, a.plus(g.times(b)));
        F::law_distrib(e, a, g.times(b));
        field::lemma_times_swap(e, g, b);
    }
    sums::lemma_sum_ext(n, f, h);
    sums::lemma_sum_plus(n, fw, gs);
    sums::lemma_sum_scale(n, g, s);
    sums::lemma_sum_plus(n, f1, g2);
    sums::lemma_sum_scale(n, g, f2);
}

/// The openings cached by the prover satisfy the output claim: it is the value to which the
/// sumcheck reduces. The increment opened at the cycle part is the column's own extension.
pub proof fn law_output<F: Field>(
    g: F,
    r: Seq<F>,
    m: Matrices<F>,
    acc: Claims<F>,
    log_k: nat,
    xs: Seq<F>,
)
    requires
        xs.len() == log_k + r.len(),
        m.sized(xs.len(), r.len()),
        field::all_valid(m.inc),
    ensures
        ({
            let y = xs.reverse();
            let t = table(g, g.times(g), r, m);
            let row = sumcheck::final_row(t.columns, xs);
            let v = Reduced {
                val: row[4],
                rs1_ra: row[1],
                rs2_ra: row[2],
                rd_wa: row[3],
                inc: row[5],
            };
            &&& row[5] == poly::mle(m.inc, y.skip(log_k as int))
            &&& output(g, r, log_k as int, cached(acc, log_k as int, xs, v), xs)
                == t.formula.value(row)
        }),
{
    let y = xs.reverse();
    let t = table(g, g.times(g), r, m);
    let row = sumcheck::final_row(t.columns, xs);
    reveal_with_fuel(Formula::value, 8);
    poly::lemma_eq_table_valid(r);
    poly::lemma_mle_broadcast(poly::eq_table(r), y, log_k);
    poly::lemma_mle_broadcast(m.inc, y, log_k);
    poly::lemma_mle_eq_table(r, y.skip(log_k as int));
    poly::lemma_eq_mle_comm(r, y.skip(log_k as int));
    lemma_merge(g, row[1], row[2], row[3], row[4], row[5]);
}

} // verus!
