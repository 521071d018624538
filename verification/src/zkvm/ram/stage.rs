//! The RAM stage: a batch of three sumchecks and one more on one transcript.
//!
//! The read-write check, the address check and the output check run as one batch, so that they
//! share one address point. The value check then compares the value and the final value opened at
//! that address point with the increments. Memory starts at zero.

use crate::field;
use crate::field::Field;
use crate::framework::accumulator;
use crate::framework::accumulator::{
    Claims, CommittedPolynomial, OpeningId, Openings, SumcheckId, VirtualPolynomial,
};
use crate::framework::batching;
use crate::framework::batching::{Batch, ClaimView, Part};
use crate::framework::poly;
use crate::framework::sumcheck;
use crate::framework::sumcheck::{SumTable, SumcheckClaim, SumcheckError};
use crate::framework::sums;
use crate::framework::transcript;
use crate::framework::transcript::{FsState, ProverFs, VerifierFs};
use crate::zkvm::access;
use crate::zkvm::ram::output_check;
use crate::zkvm::ram::output_check::{RamOutputCheck, RamOutputCheckParams};
use crate::zkvm::ram::raf_evaluation;
use crate::zkvm::ram::raf_evaluation::{RamRafEvaluation, RamRafEvaluationParams};
use crate::zkvm::ram::read_write_checking;
use crate::zkvm::ram::read_write_checking::{RamReadWriteChecking, RamReadWriteCheckingParams};
use crate::zkvm::ram::val_check;
use crate::zkvm::ram::val_check::{RamValCheck, RamValCheckParams};
use crate::zkvm::ram::witness;
use crate::zkvm::ram::witness::RamWitness;
use crate::zkvm::trace::CycleRow;
use vstd::arithmetic::power2::pow2;
use vstd::prelude::*;

verus! {

/// Why a RAM proof is rejected.
#[derive(Clone, Copy, Debug, PartialEq, Eq, Structural)]
pub enum RamStageError {
    Sumcheck,
    BatchedClaim,
    ValCheckClaim,
}

/// The claims the prover hands to the verifier.
#[derive(Debug)]
pub struct RamStageProof<F> {
    /// The read value, the written value and the physical address at the fresh cycle point.
    pub spartan_seeds: [F; 3],
    /// The value, the access mark and the increment of the read-write check.
    pub rw_openings: [F; 3],
    /// The access mark of the address check.
    pub raf_opening: F,
    /// The final value of the output check.
    pub oc_opening: F,
    /// The access mark and the increment of the value check.
    pub vc_openings: [F; 2],
}

/// The claims of a RAM proof.
#[verifier::ext_equal]
#[verifier::reject_recursive_types(F)]
pub struct StageClaims<F> {
    pub seeds: Seq<F>,
    pub rw: Seq<F>,
    pub raf: F,
    pub oc: F,
    pub vc: Seq<F>,
}

impl<F: Field> View for RamStageProof<F> {
    type V = StageClaims<F>;

    open spec fn view(&self) -> StageClaims<F> {
        StageClaims {
            seeds: self.spartan_seeds@,
            rw: self.rw_openings@,
            raf: self.raf_opening,
            oc: self.oc_opening,
            vc: self.vc_openings@,
        }
    }
}

/// The public columns: the physical address of each word, the expected output, and the mask of the
/// output region.
#[verifier::ext_equal]
#[verifier::reject_recursive_types(F)]
pub struct PublicColumns<F> {
    pub unmap: Seq<F>,
    pub val_io: Seq<F>,
    pub io_mask: Seq<F>,
}

impl<F: Field> PublicColumns<F> {
    /// One entry per address.
    pub open spec fn sized(self, log_k: nat) -> bool {
        &&& self.unmap.len() == pow2(log_k)
        &&& self.val_io.len() == pow2(log_k)
        &&& self.io_mask.len() == pow2(log_k)
    }

    /// Every entry is canonical.
    pub open spec fn canonical(self) -> bool {
        field::all_valid(self.unmap) && field::all_valid(self.val_io) && field::all_valid(
            self.io_mask,
        )
    }
}

/// The name of a claim of the outer sumcheck.
pub open spec fn outer_id(p: VirtualPolynomial) -> OpeningId {
    accumulator::virt(p, SumcheckId::SpartanOuter)
}

/// The claims after the memory values are recorded at the fresh cycle point.
pub open spec fn seeded<F: Field>(acc: Claims<F>, point: Seq<F>, seeds: Seq<F>) -> Claims<F> {
    acc.insert(outer_id(VirtualPolynomial::RamReadValue), (point, seeds[0])).insert(
        outer_id(VirtualPolynomial::RamWriteValue),
        (point, seeds[1]),
    ).insert(outer_id(VirtualPolynomial::RamAddress), (point, seeds[2]))
}

/// Record the memory values at the fresh cycle point.
fn seed_spartan_outer<F: Field>(accumulator: &mut Openings<F>, point: &[F], seeds: &[F; 3])
    ensures
        final(accumulator)@ == seeded(old(accumulator)@, point@, seeds@),
{
    let id: SumcheckId = SumcheckId::SpartanOuter;
    accumulator.append_virtual(
        VirtualPolynomial::RamReadValue,
        id,
        poly::copied(point),
        seeds[0],
    );
    accumulator.append_virtual(
        VirtualPolynomial::RamWriteValue,
        id,
        poly::copied(point),
        seeds[1],
    );
    accumulator.append_virtual(VirtualPolynomial::RamAddress, id, poly::copied(point), seeds[2]);
}

/// How often each address is accessed, weighted by a cycle point.
pub open spec fn access_counts<F: Field>(ra: Seq<F>, r: Seq<F>, k: nat) -> Seq<F> {
    let t = pow2(r.len());
    Seq::new(
        k,
        |a: int| sums::sum(t as int, |j: int| poly::eq_weight(r, j).times(ra[a * t + j])),
    )
}

/// The physical address each cycle accesses, and zero where it accesses none.
pub open spec fn original_addresses<F: Field>(ra: Seq<F>, unmap: Seq<F>, t: nat) -> Seq<F> {
    Seq::new(t, |j: int| sums::sum(unmap.len() as int, |a: int| ra[a * t + j].times(unmap[a])))
}

/// Count the accesses of each of `k` addresses, weighted by a cycle point.
fn ra_count<F: Field>(ra: &Vec<F>, r: &[F], k: usize) -> (out: Vec<F>)
    requires
        ra@.len() == k * pow2(r@.len()),
        pow2(r@.len()) <= usize::MAX,
    ensures
        out@ == access_counts(ra@, r@, k as nat),
{
    let eq: Vec<F> = poly::eq_evals(r);
    let t: usize = eq.len();
    let len: usize = ra.len();
    let mut out: Vec<F> = Vec::new();
    for a in 0..k
        invariant
            eq@ == poly::eq_table(r@),
            t == pow2(r@.len()),
            len == ra@.len(),
            len == k * t,
            out@ == access_counts(ra@, r@, k as nat).take(a as int),
    {
        let ghost f = |j: int| poly::eq_weight(r@, j).times(ra@[a * pow2(r@.len()) + j]);
        let mut total: F = field::zero();
        for j in 0..t
            invariant
                a < k,
                eq@ == poly::eq_table(r@),
                t == pow2(r@.len()),
                len == ra@.len(),
                len == k * t,
                f == (|j: int| poly::eq_weight(r@, j).times(ra@[a * pow2(r@.len()) + j])),
                total == sums::sum(j as int, f),
        {
            proof {
                poly::lemma_cell_in_range(a as int, j as int, k as int, t as int);
            }
            assert(0 <= a * t <= len) by (nonlinear_arith)
                requires
                    0 <= a * t + j < k * t,
                    len == k * t,
                    a >= 0,
                    t >= 0,
                    j >= 0,
            ;
            total = total.add(eq[j].mul(ra[a * t + j]));
        }
        out.push(total);
        assert(out@ =~= access_counts(ra@, r@, k as nat).take(a + 1));
    }
    assert(out@ =~= access_counts(ra@, r@, k as nat));
    out
}

/// The physical address each of `t` cycles accesses.
fn orig_address<F: Field>(ra: &Vec<F>, unmap: &[F], t: usize) -> (out: Vec<F>)
    requires
        ra@.len() == unmap@.len() * t,
    ensures
        out@ == original_addresses(ra@, unmap@, t as nat),
{
    let k: usize = unmap.len();
    let len: usize = ra.len();
    let mut out: Vec<F> = Vec::new();
    for j in 0..t
        invariant
            k == unmap@.len(),
            len == ra@.len(),
            len == k * t,
            out@ == original_addresses(ra@, unmap@, t as nat).take(j as int),
    {
        let ghost f = |a: int| ra@[a * t + j].times(unmap@[a]);
        let mut total: F = field::zero();
        for a in 0..k
            invariant
                j < t,
                k == unmap@.len(),
                len == ra@.len(),
                len == k * t,
                f == (|a: int| ra@[a * t + j].times(unmap@[a])),
                total == sums::sum(a as int, f),
        {
            proof {
                poly::lemma_cell_in_range(a as int, j as int, k as int, t as int);
            }
            assert(0 <= a * t <= len) by (nonlinear_arith)
                requires
                    0 <= a * t + j < k * t,
                    len == k * t,
                    a >= 0,
                    t >= 0,
                    j >= 0,
            ;
            total = total.add(ra[a * t + j].mul(unmap[a]));
        }
        out.push(total);
        assert(out@ =~= original_addresses(ra@, unmap@, t as nat).take(j + 1));
    }
    assert(out@ =~= original_addresses(ra@, unmap@, t as nat));
    out
}

/// The accesses of each address weighted by the address, and the addresses accessed weighted by
/// the cycle, have the same sum.
proof fn lemma_address_sum<F: Field>(ra: Seq<F>, unmap: Seq<F>, r: Seq<F>)
    ensures
        sums::dot(access_counts(ra, r, unmap.len()), unmap) == poly::mle(
            original_addresses(ra, unmap, pow2(r.len())),
            r,
        ),
{
    let t = pow2(r.len()) as int;
    let k = unmap.len() as int;
    let counts = access_counts(ra, r, unmap.len());
    let orig = original_addresses(ra, unmap, pow2(r.len()));
    let cell = |a: int, j: int| poly::eq_weight(r, j).times(ra[a * t + j]).times(unmap[a]);
    let lhs = |a: int| counts[a].times(unmap[a]);
    let rows = |a: int| sums::sum(t, |j: int| cell(a, j));
    assert forall|a: int| 0 <= a < k implies #[trigger] lhs(a) == rows(a) by {
        let g = |j: int| poly::eq_weight(r, j).times(ra[a * pow2(r.len()) + j]);
        sums::lemma_sum_scale_right(t, g, unmap[a]);
        sums::lemma_sum_ext(t, |j: int| g(j).times(unmap[a]), |j: int| cell(a, j));
    }
    sums::lemma_sum_ext(k, lhs, rows);
    sums::lemma_sum_swap(k, t, cell);
    let cols = |j: int| sums::sum(k, |a: int| cell(a, j));
    let rhs = |j: int| orig[j].times(poly::eq_weight(r, j));
    assert forall|j: int| 0 <= j < t implies #[trigger] cols(j) == rhs(j) by {
        let w = poly::eq_weight(r, j);
        let g = |a: int| ra[a * t + j].times(unmap[a]);
        let scaled = |a: int| w.times(g(a));
        let col = |a: int| cell(a, j);
        assert forall|a: int| 0 <= a < k implies #[trigger] col(a) == scaled(a) by {
            F::law_times_assoc(w, ra[a * t + j], unmap[a]);
        }
        sums::lemma_sum_ext(k, col, scaled);
        sums::lemma_sum_scale(k, w, g);
        let g2 = |a: int| ra[a * pow2(r.len()) + j].times(unmap[a]);
        sums::lemma_sum_ext(k, g, g2);
        F::law_times_comm(w, orig[j]);
    }
    sums::lemma_sum_ext(t, cols, rhs);
}

/// The table of the read-write check.
pub open spec fn rw_table<F: Field>(w: RamWitness<F>, r: Seq<F>, g: F) -> SumTable<F> {
    read_write_checking::table(g, r, w.ra@, w.val@, w.inc@)
}

/// The table of the address check.
pub open spec fn raf_table<F: Field>(
    w: RamWitness<F>,
    public: PublicColumns<F>,
    r: Seq<F>,
) -> SumTable<
    F,
> {
    raf_evaluation::table(access_counts(w.ra@, r, pow2(w.log_k as nat)), public.unmap)
}

/// The table of the output check.
pub open spec fn oc_table<F: Field>(
    w: RamWitness<F>,
    public: PublicColumns<F>,
    r: Seq<F>,
) -> SumTable<
    F,
> {
    output_check::table(r, w.val_final@, public.val_io, public.io_mask)
}

/// The table of the value check at the point of the read-write check.
pub open spec fn vc_table<F: Field>(w: RamWitness<F>, y: Seq<F>, g: F) -> SumTable<F> {
    val_check::table(
        g,
        y.skip(w.log_k as int),
        w.inc@,
        access::at_address(w.ra@, y.take(w.log_k as int), pow2(w.log_t as nat)),
    )
}

/// The batch of the three checks.
pub open spec fn parts<F: Field>(
    w: RamWitness<F>,
    public: PublicColumns<F>,
    r: Seq<F>,
    weight: Seq<F>,
    g: F,
) -> Seq<Part<F>> {
    let log_t = w.log_t as nat;
    let log_k = w.log_k as nat;
    seq![
        Part { table: rw_table(w, r, g), vars: log_k + log_t },
        Part { table: raf_table(w, public, r), vars: log_k },
        Part { table: oc_table(w, public, weight), vars: log_k },
    ]
}

/// The claims after the openings of the three checks are recorded.
pub open spec fn batch_cached<F: Field>(
    acc: Claims<F>,
    log_t: int,
    log_k: int,
    r: Seq<F>,
    xs: Seq<F>,
    rw: Seq<F>,
    raf: F,
    oc: F,
) -> Claims<F> {
    let tail = xs.skip(log_t);
    output_check::cached(
        raf_evaluation::cached(
            read_write_checking::cached(acc, log_k, xs, rw[0], rw[1], rw[2]),
            r,
            tail,
            raf,
        ),
        tail,
        oc,
    )
}

/// The claims, the records and the transcript of an honest RAM stage.
pub open spec fn honest<F: Field>(
    w: RamWitness<F>,
    public: PublicColumns<F>,
    acc: Claims<F>,
    s: FsState<F>,
) -> (StageClaims<F>, Claims<F>, FsState<F>) {
    let log_t = w.log_t as nat;
    let log_k = w.log_k as nat;
    let r = s.coins(log_t);
    let s1 = s.squeeze_n(log_t);
    let seeds = seq![
        poly::mle(w.ram_read_value@, r),
        poly::mle(w.ram_write_value@, r),
        poly::mle(original_addresses(w.ra@, public.unmap, pow2(log_t)), r),
    ];
    let acc1 = seeded(acc, r, seeds);
    let weight = s1.coins(log_k);
    let s2 = s1.squeeze_n(log_k);
    let g = s2.next();
    let ps = parts(w, public, r, weight, g);
    let claims = seq![seeds[0].plus(g.times(seeds[1])), seeds[2], F::of_int(0)];
    let (xs, s3) = batching::prove_batch_run(ps, log_k + log_t, claims, s2.squeeze());
    let row1 = sumcheck::bound_row(ps[0].table.columns, xs);
    let row2 = sumcheck::bound_row(ps[1].table.columns, xs.skip(log_t as int));
    let row3 = sumcheck::bound_row(ps[2].table.columns, xs.skip(log_t as int));
    let rw = seq![row1[2], row1[1], row1[3]];
    let acc2 = batch_cached(acc1, log_t as int, log_k as int, r, xs, rw, row2[0], row3[2]);
    let y = xs.reverse();
    let t4 = vc_table(w, y, s3.next());
    let (zs, s4) = sumcheck::prove_run(t4, log_t, s3.squeeze());
    let row4 = sumcheck::bound_row(t4.columns, zs);
    let vc = seq![row4[1], row4[0]];
    let acc3 = val_check::cached(acc2, y.take(log_k as int), zs, vc[0], vc[1]);
    (StageClaims { seeds, rw, raf: row2[0], oc: row3[2], vc }, acc3, s4)
}

/// Prove the RAM stage.
#[verifier::rlimit(60)]
pub fn prove_ram<F: Field, T: ProverFs<F>>(
    witness: &RamWitness<F>,
    unmap: &[F],
    val_io: &[F],
    io_mask: &[F],
    accumulator: &mut Openings<F>,
    transcript: &mut T,
) -> (proof: RamStageProof<F>)
    requires
        witness.sized(),
        witness.log_k + witness.log_t <= usize::MAX,
        (PublicColumns { unmap: unmap@, val_io: val_io@, io_mask: io_mask@ }).sized(
            witness.log_k as nat,
        ),
    ensures
        (proof@, final(accumulator)@, final(transcript).state()) == honest(
            *witness,
            (PublicColumns { unmap: unmap@, val_io: val_io@, io_mask: io_mask@ }),
            old(accumulator)@,
            old(transcript).state(),
        ),
{
    let ghost public = PublicColumns { unmap: unmap@, val_io: val_io@, io_mask: io_mask@ };
    let ghost acc0 = accumulator@;
    let ghost s0 = transcript.state();
    let ghost log_t = witness.log_t as nat;
    let ghost log_k = witness.log_k as nat;
    let ghost n = log_k + log_t;
    let size: usize = witness.ra.len();
    let cycles: usize = witness.inc.len();
    let words: usize = unmap.len();
    proof {
        poly::lemma_pow2_concat(log_k, log_t);
        vstd::arithmetic::power2::lemma_pow2_pos(log_t);
        vstd::arithmetic::power2::lemma_pow2_pos(log_k);
        transcript::lemma_coins_len(s0, log_t);
        transcript::lemma_coins_len(s0.squeeze_n(log_t), log_k);
    }
    let r_spartan: Vec<F> = transcript::challenge_vector(transcript, witness.log_t);
    let physical: Vec<F> = orig_address(&witness.ra, unmap, cycles);
    let spartan_seeds: [F; 3] = [
        poly::evaluate(&witness.ram_read_value, &r_spartan),
        poly::evaluate(&witness.ram_write_value, &r_spartan),
        poly::evaluate(&physical, &r_spartan),
    ];
    seed_spartan_outer(accumulator, &r_spartan, &spartan_seeds);
    let weight: Vec<F> = transcript::challenge_vector(transcript, witness.log_k);
    let rw_params: RamReadWriteCheckingParams<F> = RamReadWriteCheckingParams::new(
        accumulator,
        witness.log_k,
        transcript,
    );
    let mut rw: RamReadWriteChecking<F> = RamReadWriteChecking::new_prover(
        rw_params,
        poly::copied(&witness.ra),
        poly::copied(&witness.val),
        poly::copied(&witness.inc),
    );
    let raf_params: RamRafEvaluationParams<F> = RamRafEvaluationParams::new(
        accumulator,
        witness.log_k,
    );
    let counts: Vec<F> = ra_count(&witness.ra, &r_spartan, words);
    let mut raf: RamRafEvaluation<F> = RamRafEvaluation::new_prover(
        raf_params,
        counts,
        poly::copied(unmap),
    );
    let oc_params: RamOutputCheckParams<F> = RamOutputCheckParams::new(weight);
    let mut oc: RamOutputCheck<F> = RamOutputCheck::new_prover(
        oc_params,
        poly::copied(&witness.val_final),
        poly::copied(val_io),
        poly::copied(io_mask),
    );
    let ghost g = rw.params.gamma;
    let ghost ps = parts(*witness, public, r_spartan@, weight@, g);
    proof {
        read_write_checking::law_table_shaped(g, r_spartan@, witness.ra@, witness.val@, witness.inc@, n);
        raf_evaluation::law_table_shaped(counts@, unmap@, log_k);
        output_check::law_table_shaped(weight@, witness.val_final@, val_io@, io_mask@);
        reveal_with_fuel(batching::base, 4);
    }
    let rw_claim: F = rw.params.input_claim(accumulator);
    let raf_claim: F = RamRafEvaluationParams::input_claim(accumulator);
    let oc_claim: F = oc.input_claim();
    let mut batch: Batch<F> = Batch::new(witness.log_k + witness.log_t);
    batch.push(&rw.sum, witness.log_k + witness.log_t, rw_claim);
    batch.push(&raf.sum, witness.log_k, raf_claim);
    batch.push(&oc.sum, witness.log_k, oc_claim);
    let ghost claims = seq![
        spartan_seeds@[0].plus(g.times(spartan_seeds@[1])),
        spartan_seeds@[2],
        F::of_int(0),
    ];
    assert(batch.parts() =~= ps);
    assert(batch.claims() =~= claims);
    let challenges: Vec<F> = batching::prove_batched(batch, transcript);
    let len: usize = challenges.len();
    let tail: Vec<F> = poly::range(&challenges, witness.log_t, len);
    assert(tail@ =~= challenges@.skip(log_t as int));
    sumcheck::bind_points(&mut rw.sum, &challenges);
    sumcheck::bind_points(&mut raf.sum, &tail);
    sumcheck::bind_points(&mut oc.sum, &tail);
    proof {
        sumcheck::lemma_opened(ps[0].table, challenges@, rw.sum@);
        sumcheck::lemma_opened(ps[1].table, tail@, raf.sum@);
        sumcheck::lemma_opened(ps[2].table, tail@, oc.sum@);
    }
    rw.cache_openings(accumulator, &challenges);
    raf.cache_openings(accumulator, &tail);
    oc.cache_openings(accumulator, &tail);
    let id1: SumcheckId = SumcheckId::RamReadWriteChecking;
    let rw_openings: [F; 3] = [
        accumulator.virtual_claim(VirtualPolynomial::RamVal, id1),
        accumulator.virtual_claim(VirtualPolynomial::RamRa, id1),
        accumulator.committed_claim(CommittedPolynomial::RamInc, id1),
    ];
    let raf_opening: F = accumulator.virtual_claim(
        VirtualPolynomial::RamRa,
        SumcheckId::RamRafEvaluation,
    );
    let oc_opening: F = accumulator.virtual_claim(
        VirtualPolynomial::RamValFinal,
        SumcheckId::RamOutputCheck,
    );

    // Compare the value and the final value at the shared address point with the increments.
    let initial: Vec<F> = poly::zeros(words);
    let ghost y = challenges@.reverse();
    let vc_params: RamValCheckParams<F> = RamValCheckParams::new(
        accumulator,
        witness.log_k,
        &initial,
        transcript,
    );
    let wa_col: Vec<F> = access::matrix_at_address(&witness.ra, &vc_params.r_address, cycles);
    let mut vc: RamValCheck<F> = RamValCheck::new_prover(
        vc_params,
        poly::copied(&witness.inc),
        wa_col,
    );
    let ghost t4 = vc.sum@;
    proof {
        val_check::law_table_shaped(
            vc_params.gamma,
            y.skip(log_k as int),
            witness.inc@,
            wa_col@,
        );
    }
    let zs: Vec<F> = sumcheck::prove(&mut vc.sum, witness.log_t, transcript);
    proof {
        sumcheck::lemma_opened(t4, zs@, vc.sum@);
    }
    vc.cache_openings(accumulator, &zs);
    let vc_openings: [F; 2] = [
        accumulator.virtual_claim(VirtualPolynomial::RamRa, SumcheckId::RamValCheck),
        accumulator.committed_claim(CommittedPolynomial::RamInc, SumcheckId::RamValCheck),
    ];
    let proof_out: RamStageProof<F> = RamStageProof {
        spartan_seeds,
        rw_openings,
        raf_opening,
        oc_opening,
        vc_openings,
    };
    assert(proof_out@ =~= honest(*witness, public, acc0, s0).0);
    proof_out
}

/// The claims of the batch of three checks.
pub open spec fn batch_claims<F: Field>(log_t: nat, log_k: nat, seeds: Seq<F>, g: F) -> Seq<
    ClaimView<F>,
> {
    seq![
        ClaimView {
            vars: log_k + log_t,
            degree: read_write_checking::DEGREE as nat,
            sum: seeds[0].plus(g.times(seeds[1])),
        },
        ClaimView { vars: log_k, degree: raf_evaluation::DEGREE as nat, sum: seeds[2] },
        ClaimView { vars: log_k, degree: output_check::DEGREE as nat, sum: F::of_int(0) },
    ]
}

/// The verdict on a RAM proof, the recorded claims, and the transcript after it.
pub open spec fn verdict<F: Field>(
    proof: StageClaims<F>,
    log_t: nat,
    log_k: nat,
    public: PublicColumns<F>,
    acc: Claims<F>,
    s: FsState<F>,
) -> (Result<(), RamStageError>, Claims<F>, FsState<F>) {
    let r = s.coins(log_t);
    let s1 = s.squeeze_n(log_t);
    let acc1 = seeded(acc, r, proof.seeds);
    let weight = s1.coins(log_k);
    let s2 = s1.squeeze_n(log_k);
    let g = s2.next();
    let (first, s3) = batching::verify_batch_run(
        batch_claims(log_t, log_k, proof.seeds, g),
        s2.squeeze(),
    );
    match first {
        Err(_) => (Err(RamStageError::Sumcheck), acc1, s3),
        Ok((xs, value, coeffs)) => {
            let acc2 = batch_cached(
                acc1,
                log_t as int,
                log_k as int,
                r,
                xs,
                proof.rw,
                proof.raf,
                proof.oc,
            );
            let tail = xs.skip(log_t as int);
            let combined = coeffs[0].times(
                read_write_checking::output(g, r, log_k as int, acc2, xs),
            ).plus(
                coeffs[1].times(raf_evaluation::output(public.unmap, acc2, tail)),
            ).plus(
                coeffs[2].times(
                    output_check::output(weight, public.val_io, public.io_mask, acc2, tail),
                ),
            );
            if value != combined {
                (Err(RamStageError::BatchedClaim), acc2, s3)
            } else {
                verdict_vc(proof, log_t, log_k, xs.reverse(), acc2, s3)
            }
        },
    }
}

/// The verdict from the value check on.
pub open spec fn verdict_vc<F: Field>(
    proof: StageClaims<F>,
    log_t: nat,
    log_k: nat,
    y: Seq<F>,
    acc: Claims<F>,
    s: FsState<F>,
) -> (Result<(), RamStageError>, Claims<F>, FsState<F>) {
    let g = s.next();
    let ra = y.take(log_k as int);
    let init = poly::mle(Seq::new(pow2(log_k), |i: int| F::of_int(0)), ra);
    let claim = val_check::batch(g, proof.rw[0], proof.oc, init);
    let (second, s1) = sumcheck::verify_run(
        claim,
        log_t,
        val_check::DEGREE as nat,
        s.squeeze(),
    );
    match second {
        Err(_) => (Err(RamStageError::Sumcheck), acc, s1),
        Ok((zs, value)) => {
            let acc1 = val_check::cached(acc, ra, zs, proof.vc[0], proof.vc[1]);
            if value != val_check::output(g, y.skip(log_k as int), acc1, zs) {
                (Err(RamStageError::ValCheckClaim), acc1, s1)
            } else {
                (Ok(()), acc1, s1)
            }
        },
    }
}

/// Verify the RAM stage.
#[verifier::rlimit(40)]
pub fn verify_ram<F: Field, T: VerifierFs<F>>(
    proof: &RamStageProof<F>,
    log_t: usize,
    log_k: usize,
    unmap: &[F],
    val_io: &[F],
    io_mask: &[F],
    accumulator: &mut Openings<F>,
    transcript: &mut T,
) -> (r: Result<(), RamStageError>)
    requires
        log_k + log_t <= usize::MAX,
        (PublicColumns { unmap: unmap@, val_io: val_io@, io_mask: io_mask@ }).sized(log_k as nat),
    ensures
        (r, final(accumulator)@, final(transcript).state()) == verdict(
            proof@,
            log_t as nat,
            log_k as nat,
            (PublicColumns { unmap: unmap@, val_io: val_io@, io_mask: io_mask@ }),
            old(accumulator)@,
            old(transcript).state(),
        ),
{
    let ghost s0 = transcript.state();
    let words: usize = unmap.len();
    proof {
        transcript::lemma_coins_len(s0, log_t as nat);
        transcript::lemma_coins_len(s0.squeeze_n(log_t as nat), log_k as nat);
    }
    let r_spartan: Vec<F> = transcript::challenge_vector(transcript, log_t);
    seed_spartan_outer(accumulator, &r_spartan, &proof.spartan_seeds);
    let weight: Vec<F> = transcript::challenge_vector(transcript, log_k);
    let rw_params: RamReadWriteCheckingParams<F> = RamReadWriteCheckingParams::new(
        accumulator,
        log_k,
        transcript,
    );
    let rw: RamReadWriteChecking<F> = RamReadWriteChecking::new_verifier(rw_params);
    let raf_params: RamRafEvaluationParams<F> = RamRafEvaluationParams::new(accumulator, log_k);
    let raf: RamRafEvaluation<F> = RamRafEvaluation::new_verifier(raf_params, poly::copied(unmap));
    let oc: RamOutputCheck<F> = RamOutputCheck::new_verifier(
        RamOutputCheckParams::new(weight),
        poly::copied(val_io),
        poly::copied(io_mask),
    );
    let mut claims: Vec<SumcheckClaim<F>> = Vec::new();
    claims.push(
        SumcheckClaim {
            num_vars: log_k + log_t,
            degree: read_write_checking::DEGREE,
            claimed_sum: rw.params.input_claim(accumulator),
        },
    );
    claims.push(
        SumcheckClaim {
            num_vars: log_k,
            degree: raf_evaluation::DEGREE,
            claimed_sum: proof.spartan_seeds[2],
        },
    );
    claims.push(
        SumcheckClaim {
            num_vars: log_k,
            degree: output_check::DEGREE,
            claimed_sum: oc.input_claim(),
        },
    );
    let ghost cs = batch_claims(log_t as nat, log_k as nat, proof.spartan_seeds@, rw.params.gamma);
    proof {
        assert(claims@.map_values(|c: SumcheckClaim<F>| c@) =~= cs);
        lemma_batch_shape(log_t as nat, log_k as nat, proof.spartan_seeds@, rw.params.gamma);
    }
    let (eval, coeffs) = match batching::verify_batched(&claims, transcript) {
        Err(_) => {
            return Err(RamStageError::Sumcheck);
        },
        Ok(r) => r,
    };
    let challenges: &Vec<F> = &eval.point;
    let len: usize = challenges.len();
    let tail: Vec<F> = poly::range(challenges, log_t, len);
    assert(tail@ =~= challenges@.skip(log_t as int));
    record_batch(accumulator, log_k, &r_spartan, challenges, &tail, proof);
    let rw_out: F = rw.expected_output_claim(accumulator, challenges);
    let raf_out: F = raf.expected_output_claim(accumulator, &tail);
    let oc_out: F = oc.expected_output_claim(accumulator, &tail);
    let combined: F = coeffs[0].mul(rw_out).add(coeffs[1].mul(raf_out)).add(coeffs[2].mul(oc_out));
    if !eval.value.same(combined) {
        return Err(RamStageError::BatchedClaim);
    }

    let initial: Vec<F> = poly::zeros(words);
    let vc_params: RamValCheckParams<F> = RamValCheckParams::new(
        accumulator,
        log_k,
        &initial,
        transcript,
    );
    let vc: RamValCheck<F> = RamValCheck::new_verifier(vc_params);
    let vc_claim: SumcheckClaim<F> = SumcheckClaim {
        num_vars: log_t,
        degree: val_check::DEGREE,
        claimed_sum: vc.params.input_claim(accumulator),
    };
    let vc_eval = match sumcheck::verify(&vc_claim, transcript) {
        Err(_) => {
            return Err(RamStageError::Sumcheck);
        },
        Ok(e) => e,
    };
    let cycle: Vec<F> = poly::reversed(&vc_eval.point);
    accumulator.append_virtual(
        VirtualPolynomial::RamRa,
        SumcheckId::RamValCheck,
        vc.wa_opening_point(&vc_eval.point),
        proof.vc_openings[0],
    );
    accumulator.append_dense(
        CommittedPolynomial::RamInc,
        SumcheckId::RamValCheck,
        cycle,
        proof.vc_openings[1],
    );
    let vc_expected: F = vc.expected_output_claim(accumulator, &vc_eval.point);
    if !vc_eval.value.same(vc_expected) {
        return Err(RamStageError::ValCheckClaim);
    }
    Ok(())
}

/// The largest number of variables and the largest degree of the batch.
proof fn lemma_batch_shape<F: Field>(log_t: nat, log_k: nat, seeds: Seq<F>, g: F)
    ensures
        batching::batch_vars(batch_claims(log_t, log_k, seeds, g)) == log_k + log_t,
        batching::claims_degree(batch_claims(log_t, log_k, seeds, g)) == 3,
{
    reveal_with_fuel(batching::largest, 4);
}

/// Record the openings of the three checks.
fn record_batch<F: Field>(
    accumulator: &mut Openings<F>,
    log_k: usize,
    r_cycle: &[F],
    challenges: &Vec<F>,
    tail: &Vec<F>,
    proof: &RamStageProof<F>,
)
    requires
        log_k <= challenges@.len(),
        tail@ == challenges@.skip(challenges@.len() - log_k),
    ensures
        final(accumulator)@ == batch_cached(
            old(accumulator)@,
            challenges@.len() - log_k,
            log_k as int,
            r_cycle@,
            challenges@,
            proof@.rw,
            proof@.raf,
            proof@.oc,
        ),
{
    let id: SumcheckId = SumcheckId::RamReadWriteChecking;
    let point: Vec<F> = poly::reversed(challenges);
    let len: usize = point.len();
    let cycle: Vec<F> = poly::range(&point, log_k, len);
    assert(cycle@ =~= point@.skip(log_k as int));
    let address: Vec<F> = poly::reversed(tail);
    accumulator.append_virtual(
        VirtualPolynomial::RamVal,
        id,
        poly::copied(&point),
        proof.rw_openings[0],
    );
    accumulator.append_virtual(VirtualPolynomial::RamRa, id, point, proof.rw_openings[1]);
    accumulator.append_dense(CommittedPolynomial::RamInc, id, cycle, proof.rw_openings[2]);
    accumulator.append_virtual(
        VirtualPolynomial::RamRa,
        SumcheckId::RamRafEvaluation,
        poly::concat(&address, r_cycle),
        proof.raf_opening,
    );
    accumulator.append_virtual(
        VirtualPolynomial::RamValFinal,
        SumcheckId::RamOutputCheck,
        address,
        proof.oc_opening,
    );
}

/// The public output is what the simulated memory holds in the output region.
pub open spec fn output_holds<F: Field>(w: RamWitness<F>, public: PublicColumns<F>) -> bool {
    forall|k: int|
        0 <= k < w.val_final@.len() ==> #[trigger] public.io_mask[k] == F::of_int(0)
            || w.val_final@[k] == public.val_io[k]
}

/// Completeness: the honest proof of a simulated memory with the true output is accepted, both
/// parties record the same claims, and they stay synchronised.
#[verifier::rlimit(60)]
pub proof fn law_complete<F: Field>(
    w: RamWitness<F>,
    trace: Seq<CycleRow>,
    k: nat,
    public: PublicColumns<F>,
    acc: Claims<F>,
    p: FsState<F>,
    v: FsState<F>,
    whole: Seq<F>,
)
    requires
        w.simulates(trace, k),
        witness::addresses_fit(trace, k as int),
        public.sized(w.log_k as nat),
        public.canonical(),
        output_holds(w, public),
        p.canonical(),
        transcript::synced(p, v, whole),
        honest(w, public, acc, p).2.tape.is_prefix_of(whole),
    ensures
        ({
            let (claims, acc1, p1) = honest(w, public, acc, p);
            let (r, acc2, v1) = verdict(claims, w.log_t as nat, w.log_k as nat, public, acc, v);
            &&& r is Ok
            &&& acc2 == acc1
            &&& transcript::synced(p1, v1, whole)
            &&& p1.canonical()
            &&& p.tape.is_prefix_of(p1.tape)
        }),
{
    let log_t = w.log_t as nat;
    let log_k = w.log_k as nat;
    let n = log_k + log_t;
    let (claims, acc_end, p_end) = honest(w, public, acc, p);
    let later = p_end.tape;
    witness::lemma_witness_valid(w, trace, k);
    poly::lemma_pow2_concat(log_k, log_t);
    let r = p.coins(log_t);
    let p1 = p.squeeze_n(log_t);
    let v1 = v.squeeze_n(log_t);
    transcript::lemma_coins_len(p, log_t);
    transcript::lemma_synced_squeeze_n(p, v, whole, log_t);
    let weight = p1.coins(log_k);
    let p2 = p1.squeeze_n(log_k);
    let v2 = v1.squeeze_n(log_k);
    transcript::lemma_coins_len(p1, log_k);
    transcript::lemma_synced_squeeze_n(p1, v1, whole, log_k);
    transcript::lemma_synced_squeeze(p2, v2, whole);
    let g = p2.next();
    let acc1 = seeded(acc, r, claims.seeds);
    let ps = parts(w, public, r, weight, g);
    let rw_t = ps[0].table;
    let raf_t = ps[1].table;
    let oc_t = ps[2].table;
    // the three checks start from true claims
    let counts = access_counts(w.ra@, r, pow2(log_k));
    assert(field::all_valid(counts)) by {
        assert forall|a: int| 0 <= a < counts.len() implies (#[trigger] counts[a]).valid() by {
            sums::lemma_sum_valid(
                pow2(r.len()) as int,
                |j: int| poly::eq_weight(r, j).times(w.ra@[a * pow2(r.len()) + j]),
            );
        }
    }
    read_write_checking::law_table_shaped(g, r, w.ra@, w.val@, w.inc@, n);
    raf_evaluation::law_table_shaped(counts, public.unmap, log_k);
    output_check::law_table_shaped(weight, w.val_final@, public.val_io, public.io_mask);
    witness::law_read_write_relation(w, trace, k, g, r);
    raf_evaluation::law_total(counts, public.unmap);
    lemma_address_sum(w.ra@, public.unmap, r);
    output_check::law_total(weight, w.val_final@, public.val_io, public.io_mask);
    let cs = batch_claims(log_t, log_k, claims.seeds, g);
    lemma_batch_shape(log_t, log_k, claims.seeds, g);
    assert(batching::true_claims(ps) =~= cs);
    let sums_of = cs.map_values(|c: ClaimView<F>| c.sum);
    assert(sums_of =~= seq![
        claims.seeds[0].plus(g.times(claims.seeds[1])),
        claims.seeds[2],
        F::of_int(0),
    ]);
    reveal_with_fuel(batching::base, 4);
    assert(batching::parts_shaped(ps, n));
    let (xs, p3) = batching::prove_batch_run(ps, n, sums_of, p2.squeeze());
    let y = xs.reverse();
    let t4 = vc_table(w, y, p3.next());
    sumcheck::lemma_run_extends(t4, log_t, p3.squeeze());
    assert(p3.tape.is_prefix_of(later));
    batching::law_batch_complete(ps, n, p2.squeeze(), v2.squeeze(), whole, later);
    let coeffs = batching::coefficients(sums_of, p2.squeeze()).0;
    let tail = xs.skip(log_t as int);
    assert(xs.skip(0) =~= xs);
    sumcheck::lemma_bound_columns(rw_t, xs);
    sumcheck::lemma_bound_columns(raf_t, tail);
    sumcheck::lemma_bound_columns(oc_t, tail);
    let row1 = sumcheck::final_row(rw_t.columns, xs);
    let row2 = sumcheck::final_row(raf_t.columns, tail);
    let row3 = sumcheck::final_row(oc_t.columns, tail);
    let a2 = read_write_checking::cached(
        acc1,
        log_k as int,
        xs,
        row1[2],
        row1[1],
        row1[3],
    );
    let a3 = raf_evaluation::cached(a2, r, tail, row2[0]);
    let acc2 = output_check::cached(a3, tail, row3[2]);
    read_write_checking::law_output(g, r, w.ra@, w.val@, w.inc@, acc1, log_k, xs);
    raf_evaluation::law_output(counts, public.unmap, a2, r, tail);
    output_check::law_output(
        weight,
        w.val_final@,
        public.val_io,
        public.io_mask,
        a3,
        tail,
    );
    // the claims recorded later do not change the ones recorded first
    assert(read_write_checking::output(g, r, log_k as int, acc2, xs)
        == read_write_checking::output(g, r, log_k as int, a2, xs));
    assert(raf_evaluation::output(public.unmap, acc2, tail) == raf_evaluation::output(
        public.unmap,
        a3,
        tail,
    ));
    let f = |i: int|
        coeffs[i].times(
            ps[i].table.formula.value(
                sumcheck::final_row(ps[i].table.columns, xs.skip(n - ps[i].vars)),
            ),
        );
    lemma_sum_three(f);
    F::law_valid(coeffs[0], rw_t.formula.value(row1));
    field::lemma_zero_plus(f(0));
    assert(n - log_k == log_t);
    let v3 = batching::verify_batch_run(cs, v2.squeeze()).1;
    // the value check
    transcript::lemma_synced_squeeze(p3, v3, whole);
    let g2 = p3.next();
    let ra = y.take(log_k as int);
    let rc = y.skip(log_k as int);
    let wa = access::at_address(w.ra@, ra, pow2(log_t));
    assert(field::all_valid(wa)) by {
        assert forall|j: int| 0 <= j < wa.len() implies (#[trigger] wa[j]).valid() by {
            sums::lemma_sum_valid(
                pow2(ra.len()) as int,
                |k: int| poly::eq_weight(ra, k).times(w.ra@[k * pow2(log_t) + j]),
            );
        }
    }
    val_check::law_table_shaped(g2, rc, w.inc@, wa);
    witness::law_value_relation(w, trace, k, g2, ra, rc);
    assert(y =~= ra + rc);
    assert(tail.reverse() =~= ra);
    assert(row1[2] == poly::mle(w.val@, y));
    assert(row3[2] == poly::mle(w.val_final@, ra));
    let zeros = Seq::new(pow2(log_k), |i: int| F::of_int(0));
    lemma_mle_zeros(zeros, ra);
    poly::lemma_mle_valid(w.val@, y);
    poly::lemma_mle_valid(w.val_final@, ra);
    field::lemma_minus_zero(row1[2]);
    field::lemma_minus_zero(row3[2]);
    sumcheck::lemma_step_complete(t4, log_t, p3.squeeze(), v3.squeeze(), whole, later);
    val_check::law_output(
        g2,
        rc,
        w.inc@,
        wa,
        acc2,
        ra,
        sumcheck::prove_run(t4, log_t, p3.squeeze()).0,
    );
    transcript::lemma_prefix_trans(p.tape, p3.tape, later);
}

/// The access counts at an address point are the access matrix at the address and cycle points.
proof fn lemma_counts<F: Field>(ra: Seq<F>, r_address: Seq<F>, r: Seq<F>)
    requires
        ra.len() == pow2(r_address.len()) * pow2(r.len()),
    ensures
        poly::mle(access_counts(ra, r, pow2(r_address.len())), r_address) == poly::mle(
            ra,
            r_address + r,
        ),
{
    let k = pow2(r_address.len()) as int;
    let t = pow2(r.len()) as int;
    let counts = access_counts(ra, r, pow2(r_address.len()));
    poly::lemma_mle_matrix(ra, r_address, r);
    let f = |a: int| counts[a].times(poly::eq_weight(r_address, a));
    let g = |a: int|
        poly::eq_weight(r_address, a).times(
            sums::sum(
                pow2(r.len()) as int,
                |j: int| ra[a * pow2(r.len()) + j].times(poly::eq_weight(r, j)),
            ),
        );
    assert forall|a: int| 0 <= a < k implies #[trigger] f(a) == g(a) by {
        let h1 = |j: int| poly::eq_weight(r, j).times(ra[a * pow2(r.len()) + j]);
        let h2 = |j: int| ra[a * pow2(r.len()) + j].times(poly::eq_weight(r, j));
        assert forall|j: int| 0 <= j < t implies #[trigger] h1(j) == h2(j) by {
            F::law_times_comm(poly::eq_weight(r, j), ra[a * pow2(r.len()) + j]);
        }
        sums::lemma_sum_ext(t, h1, h2);
        F::law_times_comm(counts[a], poly::eq_weight(r_address, a));
    }
    sums::lemma_sum_ext(k, f, g);
}

/// What the checks record, claim by claim.
proof fn lemma_records<F: Field>(
    acc: Claims<F>,
    log_t: int,
    log_k: int,
    r: Seq<F>,
    xs: Seq<F>,
    rw: Seq<F>,
    raf: F,
    oc: F,
    zs: Seq<F>,
    wa: F,
    inc: F,
)
    ensures
        ({
            let y = xs.reverse();
            let tail = xs.skip(log_t).reverse();
            let acc1 = val_check::cached(
                batch_cached(acc, log_t, log_k, r, xs, rw, raf, oc),
                y.take(log_k),
                zs,
                wa,
                inc,
            );
            let z = zs.reverse();
            &&& acc1.contains_key(read_write_checking::val_id())
            &&& acc1.contains_key(read_write_checking::ra_id())
            &&& acc1.contains_key(read_write_checking::inc_id())
            &&& acc1.contains_key(raf_evaluation::ra_id())
            &&& acc1.contains_key(output_check::final_id())
            &&& acc1.contains_key(val_check::ra_id())
            &&& acc1.contains_key(val_check::inc_id())
            &&& acc1[read_write_checking::val_id()] == (y, rw[0])
            &&& acc1[read_write_checking::ra_id()] == (y, rw[1])
            &&& acc1[read_write_checking::inc_id()] == (y.skip(log_k), rw[2])
            &&& acc1[raf_evaluation::ra_id()] == (tail + r, raf)
            &&& acc1[output_check::final_id()] == (tail, oc)
            &&& acc1[val_check::ra_id()] == (y.take(log_k) + z, wa)
            &&& acc1[val_check::inc_id()] == (z, inc)
        }),
{
}

/// The claims a RAM stage leaves behind are true and share one address point: every one is the
/// extension of its column at its point.
#[verifier::rlimit(40)]
pub proof fn law_openings<F: Field>(
    w: RamWitness<F>,
    trace: Seq<CycleRow>,
    k: nat,
    public: PublicColumns<F>,
    acc: Claims<F>,
    p: FsState<F>,
)
    requires
        w.simulates(trace, k),
        witness::addresses_fit(trace, k as int),
        public.sized(w.log_k as nat),
        public.canonical(),
        p.canonical(),
    ensures
        ({
            let acc1 = honest(w, public, acc, p).1;
            let n = w.log_k as nat + w.log_t as nat;
            let log_t = w.log_t as nat;
            let address = acc1[raf_evaluation::ra_id()].0.take(w.log_k as int);
            &&& accumulator::opens(acc1, read_write_checking::val_id(), w.val@, n)
            &&& accumulator::opens(acc1, read_write_checking::ra_id(), w.ra@, n)
            &&& accumulator::opens(acc1, read_write_checking::inc_id(), w.inc@, log_t)
            &&& accumulator::opens(acc1, raf_evaluation::ra_id(), w.ra@, n)
            &&& accumulator::opens(acc1, output_check::final_id(), w.val_final@, w.log_k as nat)
            &&& accumulator::opens(acc1, val_check::ra_id(), w.ra@, n)
            &&& accumulator::opens(acc1, val_check::inc_id(), w.inc@, log_t)
            &&& acc1[read_write_checking::ra_id()].0.take(w.log_k as int) == address
            &&& acc1[val_check::ra_id()].0.take(w.log_k as int) == address
        }),
{
    let log_t = w.log_t as nat;
    let log_k = w.log_k as nat;
    let n = log_k + log_t;
    witness::lemma_witness_valid(w, trace, k);
    poly::lemma_pow2_concat(log_k, log_t);
    let r = p.coins(log_t);
    let p1 = p.squeeze_n(log_t);
    transcript::lemma_coins_len(p, log_t);
    let weight = p1.coins(log_k);
    let p2 = p1.squeeze_n(log_k);
    transcript::lemma_coins_len(p1, log_k);
    let g = p2.next();
    let (claims, acc_end, p_end) = honest(w, public, acc, p);
    let ps = parts(w, public, r, weight, g);
    let cs = seq![
        claims.seeds[0].plus(g.times(claims.seeds[1])),
        claims.seeds[2],
        F::of_int(0),
    ];
    let counts = access_counts(w.ra@, r, pow2(log_k));
    assert(field::all_valid(counts)) by {
        assert forall|a: int| 0 <= a < counts.len() implies (#[trigger] counts[a]).valid() by {
            sums::lemma_sum_valid(
                pow2(r.len()) as int,
                |j: int| poly::eq_weight(r, j).times(w.ra@[a * pow2(r.len()) + j]),
            );
        }
    }
    read_write_checking::law_table_shaped(g, r, w.ra@, w.val@, w.inc@, n);
    raf_evaluation::law_table_shaped(counts, public.unmap, log_k);
    output_check::law_table_shaped(weight, w.val_final@, public.val_io, public.io_mask);
    let (xs, p3) = batching::prove_batch_run(ps, n, cs, p2.squeeze());
    let (coeffs, pb) = batching::coefficients(cs, p2.squeeze());
    sumcheck::lemma_run_extends(batching::combined(ps, n, coeffs), n, pb);
    transcript::lemma_coins_len(p2.squeeze().absorb(cs), cs.len());
    let tail = xs.skip(log_t as int);
    let y = xs.reverse();
    let ra = y.take(log_k as int);
    let rc = y.skip(log_k as int);
    assert(tail.reverse() =~= ra);
    assert(y =~= ra + rc);
    sumcheck::lemma_bound_columns(ps[0].table, xs);
    sumcheck::lemma_bound_columns(ps[1].table, tail);
    sumcheck::lemma_bound_columns(ps[2].table, tail);
    read_write_checking::law_output(g, r, w.ra@, w.val@, w.inc@, acc, log_k, xs);
    lemma_counts(w.ra@, ra, r);
    let g2 = p3.next();
    assert(p3.canonical());
    let wa = access::at_address(w.ra@, ra, pow2(log_t));
    assert(field::all_valid(wa)) by {
        assert forall|j: int| 0 <= j < wa.len() implies (#[trigger] wa[j]).valid() by {
            sums::lemma_sum_valid(
                pow2(ra.len()) as int,
                |k: int| poly::eq_weight(ra, k).times(w.ra@[k * pow2(log_t) + j]),
            );
        }
    }
    val_check::law_table_shaped(g2, rc, w.inc@, wa);
    let t4 = vc_table(w, y, g2);
    let zs = sumcheck::prove_run(t4, log_t, p3.squeeze()).0;
    sumcheck::lemma_run_extends(t4, log_t, p3.squeeze());
    sumcheck::lemma_bound_columns(t4, zs);
    access::lemma_at_address(w.ra@, ra, zs.reverse());
    let row1 = sumcheck::final_row(ps[0].table.columns, xs);
    let row2 = sumcheck::final_row(ps[1].table.columns, tail);
    let row3 = sumcheck::final_row(ps[2].table.columns, tail);
    let row4 = sumcheck::final_row(t4.columns, zs);
    assert(row1[1] == poly::mle(w.ra@, y) && row1[2] == poly::mle(w.val@, y));
    assert(row2[0] == poly::mle(counts, ra));
    assert(row3[2] == poly::mle(w.val_final@, ra));
    assert(row4[0] == poly::mle(w.inc@, zs.reverse()) && row4[1] == poly::mle(wa, zs.reverse()));
    assert((ra + r).take(log_k as int) =~= ra);
    assert((ra + zs.reverse()).take(log_k as int) =~= ra);
    lemma_records(
        seeded(acc, r, claims.seeds),
        log_t as int,
        log_k as int,
        r,
        xs,
        claims.rw,
        claims.raf,
        claims.oc,
        zs,
        claims.vc[0],
        claims.vc[1],
    );
}

/// Whatever an accepted proof holds, its claims are recorded at points of the announced sizes that
/// share one address part.
pub proof fn lemma_recorded<F: Field>(
    proof: StageClaims<F>,
    log_t: nat,
    log_k: nat,
    public: PublicColumns<F>,
    acc: Claims<F>,
    s: FsState<F>,
)
    requires
        verdict(proof, log_t, log_k, public, acc, s).0 is Ok,
    ensures
        ({
            let acc1 = verdict(proof, log_t, log_k, public, acc, s).1;
            &&& accumulator::recorded(acc1, read_write_checking::ra_id(), log_k + log_t)
            &&& accumulator::recorded(acc1, raf_evaluation::ra_id(), log_k + log_t)
            &&& accumulator::recorded(acc1, val_check::ra_id(), log_k + log_t)
            &&& accumulator::recorded(acc1, read_write_checking::inc_id(), log_t)
            &&& accumulator::recorded(acc1, val_check::inc_id(), log_t)
        }),
{
    let s1 = s.squeeze_n(log_t);
    let s2 = s1.squeeze_n(log_k);
    transcript::lemma_coins_len(s, log_t);
    lemma_batch_shape(log_t, log_k, proof.seeds, s2.next());
    let cs = batch_claims(log_t, log_k, proof.seeds, s2.next());
    let (r, s3) = batching::verify_batch_run(cs, s2.squeeze());
    let (coeffs, sb) = batching::coefficients(
        cs.map_values(|c: ClaimView<F>| c.sum),
        s2.squeeze(),
    );
    let (r1, _) = sumcheck::verify_run(
        batching::combined_claim(cs, coeffs),
        batching::batch_vars(cs),
        batching::claims_degree(cs),
        sb,
    );
    sumcheck::lemma_verify_len(
        batching::combined_claim(cs, coeffs),
        Seq::empty(),
        batching::batch_vars(cs),
        batching::claims_degree(cs),
        sb,
    );
    let xs = r->Ok_0.0;
    let y = xs.reverse();
    let init = poly::mle(
        Seq::new(pow2(log_k), |i: int| F::of_int(0)),
        y.take(log_k as int),
    );
    sumcheck::lemma_verify_len(
        val_check::batch(s3.next(), proof.rw[0], proof.oc, init),
        Seq::empty(),
        log_t,
        val_check::DEGREE as nat,
        s3.squeeze(),
    );
}

/// The claims of the honest stage are recorded at points of the announced sizes.
pub proof fn lemma_honest_recorded<F: Field>(
    w: RamWitness<F>,
    public: PublicColumns<F>,
    acc: Claims<F>,
    p: FsState<F>,
)
    ensures
        ({
            let acc1 = honest(w, public, acc, p).1;
            let n = w.log_k as nat + w.log_t as nat;
            &&& accumulator::recorded(acc1, read_write_checking::ra_id(), n)
            &&& accumulator::recorded(acc1, raf_evaluation::ra_id(), n)
            &&& accumulator::recorded(acc1, val_check::ra_id(), n)
            &&& accumulator::recorded(acc1, read_write_checking::inc_id(), w.log_t as nat)
            &&& accumulator::recorded(acc1, val_check::inc_id(), w.log_t as nat)
        }),
{
    let log_t = w.log_t as nat;
    let log_k = w.log_k as nat;
    let n = log_k + log_t;
    let r = p.coins(log_t);
    let p1 = p.squeeze_n(log_t);
    transcript::lemma_coins_len(p, log_t);
    let weight = p1.coins(log_k);
    let p2 = p1.squeeze_n(log_k);
    let g = p2.next();
    let claims = honest(w, public, acc, p).0;
    let ps = parts(w, public, r, weight, g);
    let cs = seq![
        claims.seeds[0].plus(g.times(claims.seeds[1])),
        claims.seeds[2],
        F::of_int(0),
    ];
    let (xs, p3) = batching::prove_batch_run(ps, n, cs, p2.squeeze());
    let (coeffs, pb) = batching::coefficients(cs, p2.squeeze());
    sumcheck::lemma_run_extends(batching::combined(ps, n, coeffs), n, pb);
    let t4 = vc_table(w, xs.reverse(), p3.next());
    sumcheck::lemma_run_extends(t4, log_t, p3.squeeze());
}

/// The honest stage only appends to the tape.
pub proof fn lemma_honest_extends<F: Field>(
    w: RamWitness<F>,
    public: PublicColumns<F>,
    acc: Claims<F>,
    p: FsState<F>,
)
    ensures
        p.tape.is_prefix_of(honest(w, public, acc, p).2.tape),
        honest(w, public, acc, p).2.coin == p.coin,
{
    let log_t = w.log_t as nat;
    let log_k = w.log_k as nat;
    let n = log_k + log_t;
    let r = p.coins(log_t);
    let p1 = p.squeeze_n(log_t);
    transcript::lemma_coins_len(p, log_t);
    transcript::lemma_coins_len(p1, log_k);
    let p2 = p1.squeeze_n(log_k);
    let g = p2.next();
    let claims = honest(w, public, acc, p).0;
    let ps = parts(w, public, r, p1.coins(log_k), g);
    let cs = seq![
        claims.seeds[0].plus(g.times(claims.seeds[1])),
        claims.seeds[2],
        F::of_int(0),
    ];
    let (xs, p3) = batching::prove_batch_run(ps, n, cs, p2.squeeze());
    let (coeffs, pb) = batching::coefficients(cs, p2.squeeze());
    transcript::lemma_coins_len(p2.squeeze().absorb(cs), 3);
    sumcheck::lemma_run_extends(batching::combined(ps, n, coeffs), n, pb);
    let t4 = vc_table(w, xs.reverse(), p3.next());
    sumcheck::lemma_run_extends(t4, log_t, p3.squeeze());
    transcript::lemma_prefix_trans(p.tape, p3.tape, honest(w, public, acc, p).2.tape);
}

proof fn lemma_sum_three<F: Field>(f: spec_fn(int) -> F)
    ensures
        sums::sum(3, f) == F::of_int(0).plus(f(0)).plus(f(1)).plus(f(2)),
{
    assert(sums::sum(0, f) == F::of_int(0));
    assert(sums::sum(1, f) == sums::sum(0, f).plus(f(0)));
    assert(sums::sum(2, f) == sums::sum(1, f).plus(f(1)));
    assert(sums::sum(3, f) == sums::sum(2, f).plus(f(2)));
}

/// The extension of a zero column is zero.
pub proof fn lemma_mle_zeros<F: Field>(p: Seq<F>, r: Seq<F>)
    requires
        forall|i: int| 0 <= i < p.len() ==> #[trigger] p[i] == F::of_int(0),
    ensures
        poly::mle(p, r) == F::of_int(0),
{
    let f = |i: int| p[i].times(poly::eq_weight(r, i));
    assert forall|i: int| 0 <= i < p.len() implies #[trigger] f(i) == F::of_int(0) by {
        assert(p[i] == F::of_int(0));
        field::lemma_zero_times(poly::eq_weight(r, i));
    }
    sums::lemma_sum_zero(p.len() as int, f);
}

/// The run of the batched checks: its challenges with the last claim and the coefficients, and the
/// transcript after.
pub open spec fn batch_run<F: Field>(seeds: Seq<F>, log_t: nat, log_k: nat, s: FsState<F>) -> (
    Result<(Seq<F>, F, Seq<F>), SumcheckError>,
    FsState<F>,
) {
    let s1 = s.squeeze_n(log_t).squeeze_n(log_k);
    batching::verify_batch_run(batch_claims(log_t, log_k, seeds, s1.next()), s1.squeeze())
}

/// What the access openings say in the read-write check.
pub open spec fn said_accesses<F: Field>(rw: Seq<F>, log_t: nat, log_k: nat, s: FsState<F>) -> F {
    let g = s.squeeze_n(log_t).squeeze_n(log_k).next();
    rw[1].times(rw[0].plus(g.times(rw[0].plus(rw[2]))))
}

/// The weight of the access openings in the batched check.
pub open spec fn access_weight<F: Field>(seeds: Seq<F>, log_t: nat, log_k: nat, s: FsState<F>) -> F {
    let (xs, value, coeffs) = batch_run(seeds, log_t, log_k, s).0->Ok_0;
    coeffs[0].times(poly::eq_mle(s.coins(log_t), xs.reverse().skip(log_k as int)))
}

/// The weight of the address opening in the batched check.
pub open spec fn address_weight<F: Field>(
    seeds: Seq<F>,
    log_t: nat,
    log_k: nat,
    unmap: Seq<F>,
    s: FsState<F>,
) -> F {
    let (xs, value, coeffs) = batch_run(seeds, log_t, log_k, s).0->Ok_0;
    coeffs[1].times(poly::mle(unmap, xs.skip(log_t as int).reverse()))
}

/// The weight of the final value's opening in the batched check.
pub open spec fn final_weight<F: Field>(
    seeds: Seq<F>,
    log_t: nat,
    log_k: nat,
    io_mask: Seq<F>,
    s: FsState<F>,
) -> F {
    let (xs, value, coeffs) = batch_run(seeds, log_t, log_k, s).0->Ok_0;
    let y = xs.skip(log_t as int).reverse();
    let at = s.squeeze_n(log_t).coins(log_k);
    coeffs[2].times(poly::eq_mle(at, y).times(poly::mle(io_mask, y)))
}

/// The claim of the value check behind the batched checks.
pub open spec fn value_claim<F: Field>(
    proof: StageClaims<F>,
    log_t: nat,
    log_k: nat,
    s: FsState<F>,
) -> F {
    let (first, s1) = batch_run(proof.seeds, log_t, log_k, s);
    let at = first->Ok_0.0.reverse().take(log_k as int);
    let init = poly::mle(Seq::new(pow2(log_k), |i: int| F::of_int(0)), at);
    val_check::batch(s1.next(), proof.rw[0], proof.oc, init)
}

/// The weight of the write and increment openings in the value check.
pub open spec fn value_weight<F: Field>(
    proof: StageClaims<F>,
    log_t: nat,
    log_k: nat,
    s: FsState<F>,
) -> F {
    let (first, s1) = batch_run(proof.seeds, log_t, log_k, s);
    let zs = sumcheck::verify_run(
        value_claim(proof, log_t, log_k, s),
        log_t,
        val_check::DEGREE as nat,
        s1.squeeze(),
    ).0->Ok_0.0;
    poly::lt_mle(zs.reverse(), first->Ok_0.0.reverse().skip(log_k as int)).plus(s1.next())
}

/// Where one proof is accepted, another that differs in the access openings is refused by the
/// batched check, unless their weight cancels the difference.
pub proof fn law_changed_accesses_refused<F: Field>(
    accepted: StageClaims<F>,
    proof: StageClaims<F>,
    log_t: nat,
    log_k: nat,
    public: PublicColumns<F>,
    acc: Claims<F>,
    s: FsState<F>,
)
    requires
        verdict(accepted, log_t, log_k, public, acc, s).0 is Ok,
        proof.seeds == accepted.seeds,
        proof.raf == accepted.raf,
        proof.oc == accepted.oc,
        access_weight(accepted.seeds, log_t, log_k, s).times(
            said_accesses(proof.rw, log_t, log_k, s).minus(
                said_accesses(accepted.rw, log_t, log_k, s),
            ),
        ) != F::of_int(0),
    ensures
        verdict(proof, log_t, log_k, public, acc, s).0 == Err::<(), RamStageError>(
            RamStageError::BatchedClaim,
        ),
{
    let (xs, value, coeffs) = batch_run(accepted.seeds, log_t, log_k, s).0->Ok_0;
    let g = s.squeeze_n(log_t).squeeze_n(log_k).next();
    let e = poly::eq_mle(s.coins(log_t), xs.reverse().skip(log_k as int));
    let a = said_accesses(accepted.rw, log_t, log_k, s);
    let b = said_accesses(proof.rw, log_t, log_k, s);
    field::lemma_weighted_apart(coeffs[0].times(e), a, b);
    let (x, y) = (accepted.rw, proof.rw);
    lemma_term(coeffs[0], e, x[1], x[0].plus(g.times(x[0].plus(x[2]))));
    lemma_term(coeffs[0], e, y[1], y[0].plus(g.times(y[0].plus(y[2]))));
    let tail = xs.skip(log_t as int);
    let at = s.squeeze_n(log_t).coins(log_k);
    let acc1 = seeded(acc, s.coins(log_t), accepted.seeds);
    let acc2 = batch_cached(
        acc1,
        log_t as int,
        log_k as int,
        s.coins(log_t),
        xs,
        accepted.rw,
        accepted.raf,
        accepted.oc,
    );
    let second = coeffs[1].times(raf_evaluation::output(public.unmap, acc2, tail));
    let third = coeffs[2].times(output_check::output(at, public.val_io, public.io_mask, acc2, tail));
    field::lemma_sum_apart(coeffs[0].times(e).times(a), coeffs[0].times(e).times(b), second);
    F::law_valid(coeffs[0].times(e).times(a), second);
    F::law_valid(coeffs[0].times(e).times(b), second);
    field::lemma_sum_apart(
        coeffs[0].times(e).times(a).plus(second),
        coeffs[0].times(e).times(b).plus(second),
        third,
    );
}

/// Where one proof is accepted, another that differs in the address opening is refused by the
/// batched check, unless its weight cancels the difference.
pub proof fn law_changed_address_refused<F: Field>(
    accepted: StageClaims<F>,
    proof: StageClaims<F>,
    log_t: nat,
    log_k: nat,
    public: PublicColumns<F>,
    acc: Claims<F>,
    s: FsState<F>,
)
    requires
        verdict(accepted, log_t, log_k, public, acc, s).0 is Ok,
        proof.seeds == accepted.seeds,
        proof.rw == accepted.rw,
        proof.oc == accepted.oc,
        address_weight(accepted.seeds, log_t, log_k, public.unmap, s).times(
            proof.raf.minus(accepted.raf),
        ) != F::of_int(0),
    ensures
        verdict(proof, log_t, log_k, public, acc, s).0 == Err::<(), RamStageError>(
            RamStageError::BatchedClaim,
        ),
{
    let (xs, value, coeffs) = batch_run(accepted.seeds, log_t, log_k, s).0->Ok_0;
    let g = s.squeeze_n(log_t).squeeze_n(log_k).next();
    let tail = xs.skip(log_t as int);
    let m = poly::mle(public.unmap, tail.reverse());
    let w = coeffs[1].times(m);
    field::lemma_weighted_apart(w, accepted.raf, proof.raf);
    F::law_times_assoc(coeffs[1], m, accepted.raf);
    F::law_times_assoc(coeffs[1], m, proof.raf);
    let r = s.coins(log_t);
    let at = s.squeeze_n(log_t).coins(log_k);
    let acc1 = seeded(acc, r, accepted.seeds);
    let acc2 = batch_cached(
        acc1,
        log_t as int,
        log_k as int,
        r,
        xs,
        accepted.rw,
        accepted.raf,
        accepted.oc,
    );
    let first = coeffs[0].times(read_write_checking::output(g, r, log_k as int, acc2, xs));
    let third = coeffs[2].times(output_check::output(at, public.val_io, public.io_mask, acc2, tail));
    F::law_valid(w, accepted.raf);
    F::law_valid(w, proof.raf);
    field::lemma_sum_apart(w.times(accepted.raf), w.times(proof.raf), first);
    F::law_valid(first, w.times(accepted.raf));
    F::law_valid(first, w.times(proof.raf));
    field::lemma_sum_apart(
        first.plus(w.times(accepted.raf)),
        first.plus(w.times(proof.raf)),
        third,
    );
}

/// Where one proof is accepted, another that differs in the opening of the final value is refused by
/// the batched check, unless its weight cancels the difference.
pub proof fn law_changed_final_refused<F: Field>(
    accepted: StageClaims<F>,
    proof: StageClaims<F>,
    log_t: nat,
    log_k: nat,
    public: PublicColumns<F>,
    acc: Claims<F>,
    s: FsState<F>,
)
    requires
        verdict(accepted, log_t, log_k, public, acc, s).0 is Ok,
        proof.seeds == accepted.seeds,
        proof.rw == accepted.rw,
        proof.raf == accepted.raf,
        final_weight(accepted.seeds, log_t, log_k, public.io_mask, s).times(
            proof.oc.minus(accepted.oc),
        ) != F::of_int(0),
    ensures
        verdict(proof, log_t, log_k, public, acc, s).0 == Err::<(), RamStageError>(
            RamStageError::BatchedClaim,
        ),
{
    let (xs, value, coeffs) = batch_run(accepted.seeds, log_t, log_k, s).0->Ok_0;
    let g = s.squeeze_n(log_t).squeeze_n(log_k).next();
    let tail = xs.skip(log_t as int);
    let y = tail.reverse();
    let r = s.coins(log_t);
    let at = s.squeeze_n(log_t).coins(log_k);
    let m = poly::eq_mle(at, y).times(poly::mle(public.io_mask, y));
    let w = coeffs[2].times(m);
    let x = poly::mle(public.val_io, y);
    field::lemma_weighted_apart(w, accepted.oc, proof.oc);
    field::lemma_distrib_minus(w, accepted.oc, x);
    field::lemma_distrib_minus(w, proof.oc, x);
    F::law_times_assoc(coeffs[2], m, accepted.oc.minus(x));
    F::law_times_assoc(coeffs[2], m, proof.oc.minus(x));
    F::law_valid(w, accepted.oc);
    F::law_valid(w, proof.oc);
    field::lemma_minus_plus(w.times(accepted.oc), w.times(x));
    field::lemma_minus_plus(w.times(proof.oc), w.times(x));
    let a = w.times(accepted.oc.minus(x));
    let b = w.times(proof.oc.minus(x));
    assert(a != b);
    let acc1 = seeded(acc, r, accepted.seeds);
    let acc2 = batch_cached(
        acc1,
        log_t as int,
        log_k as int,
        r,
        xs,
        accepted.rw,
        accepted.raf,
        accepted.oc,
    );
    let first = coeffs[0].times(read_write_checking::output(g, r, log_k as int, acc2, xs));
    let second = coeffs[1].times(raf_evaluation::output(public.unmap, acc2, tail));
    F::law_valid(w, accepted.oc.minus(x));
    F::law_valid(w, proof.oc.minus(x));
    field::lemma_sum_apart(a, b, first.plus(second));
}

/// Where one proof is accepted, another with the same seeds and another claim of the value check is
/// refused: by the batched check, or by the value check. With at least one cycle variable this holds
/// whatever its openings are, with none the claim is checked against them, and they are the same.
pub proof fn law_changed_value_claim_refused<F: Field>(
    accepted: StageClaims<F>,
    proof: StageClaims<F>,
    log_t: nat,
    log_k: nat,
    public: PublicColumns<F>,
    acc: Claims<F>,
    s: FsState<F>,
)
    requires
        verdict(accepted, log_t, log_k, public, acc, s).0 is Ok,
        log_t > 0 || proof.vc == accepted.vc,
        proof.seeds == accepted.seeds,
        value_claim(proof, log_t, log_k, s) != value_claim(accepted, log_t, log_k, s),
    ensures
        ({
            let r = verdict(proof, log_t, log_k, public, acc, s).0;
            ||| r == Err::<(), RamStageError>(RamStageError::BatchedClaim)
            ||| r == Err::<(), RamStageError>(
                if log_t > 0 {
                    RamStageError::Sumcheck
                } else {
                    RamStageError::ValCheckClaim
                },
            )
        }),
{
    if log_t > 0 {
        sumcheck::law_changed_claim_refused(
            value_claim(accepted, log_t, log_k, s),
            value_claim(proof, log_t, log_k, s),
            log_t,
            val_check::DEGREE as nat,
            batch_run(accepted.seeds, log_t, log_k, s).1.squeeze(),
        );
    }
}

/// Where one proof is accepted, another with the same seeds and final value and a different opening
/// of the value is refused: whatever its other openings are with at least one cycle variable, and
/// with the same openings of the value check with none.
pub proof fn law_changed_value_refused<F: Field>(
    accepted: StageClaims<F>,
    proof: StageClaims<F>,
    log_t: nat,
    log_k: nat,
    public: PublicColumns<F>,
    acc: Claims<F>,
    s: FsState<F>,
)
    requires
        verdict(accepted, log_t, log_k, public, acc, s).0 is Ok,
        log_t > 0 || proof.vc == accepted.vc,
        proof.seeds == accepted.seeds,
        proof.oc == accepted.oc,
        proof.rw[0].valid(),
        accepted.rw[0].valid(),
        proof.rw[0] != accepted.rw[0],
    ensures
        ({
            let r = verdict(proof, log_t, log_k, public, acc, s).0;
            ||| r == Err::<(), RamStageError>(RamStageError::BatchedClaim)
            ||| r == Err::<(), RamStageError>(
                if log_t > 0 {
                    RamStageError::Sumcheck
                } else {
                    RamStageError::ValCheckClaim
                },
            )
        }),
{
    let (first, s1) = batch_run(accepted.seeds, log_t, log_k, s);
    let at = first->Ok_0.0.reverse().take(log_k as int);
    let init = poly::mle(Seq::new(pow2(log_k), |i: int| F::of_int(0)), at);
    let a = accepted.rw[0];
    let b = proof.rw[0];
    field::lemma_minus_plus(a, init);
    field::lemma_minus_plus(b, init);
    F::law_valid(a, init);
    F::law_valid(b, init);
    field::lemma_sum_apart(
        a.minus(init),
        b.minus(init),
        s1.next().times(accepted.oc.minus(init)),
    );
    law_changed_value_claim_refused(accepted, proof, log_t, log_k, public, acc, s);
}

/// Where one proof is accepted, another that differs in the openings of the value check alone is
/// refused by its check, unless their weight cancels the difference.
pub proof fn law_changed_writes_refused<F: Field>(
    accepted: StageClaims<F>,
    proof: StageClaims<F>,
    log_t: nat,
    log_k: nat,
    public: PublicColumns<F>,
    acc: Claims<F>,
    s: FsState<F>,
)
    requires
        verdict(accepted, log_t, log_k, public, acc, s).0 is Ok,
        proof.seeds == accepted.seeds,
        proof.rw == accepted.rw,
        proof.raf == accepted.raf,
        proof.oc == accepted.oc,
        value_weight(accepted, log_t, log_k, s).times(
            proof.vc[1].times(proof.vc[0]).minus(accepted.vc[1].times(accepted.vc[0])),
        ) != F::of_int(0),
    ensures
        verdict(proof, log_t, log_k, public, acc, s).0 == Err::<(), RamStageError>(
            RamStageError::ValCheckClaim,
        ),
{
    let w = value_weight(accepted, log_t, log_k, s);
    let a = accepted.vc[1].times(accepted.vc[0]);
    let b = proof.vc[1].times(proof.vc[0]);
    field::lemma_weighted_apart(w, a, b);
    F::law_times_comm(w, a);
    F::law_times_comm(w, b);
}

/// The honest proof with changed access openings is refused by the batched check, unless their
/// weight cancels the difference.
pub proof fn law_dishonest_accesses_refused<F: Field>(
    rw: Seq<F>,
    w: RamWitness<F>,
    trace: Seq<CycleRow>,
    k: nat,
    public: PublicColumns<F>,
    acc: Claims<F>,
    p: FsState<F>,
    v: FsState<F>,
    whole: Seq<F>,
)
    requires
        w.simulates(trace, k),
        witness::addresses_fit(trace, k as int),
        public.sized(w.log_k as nat),
        public.canonical(),
        output_holds(w, public),
        p.canonical(),
        transcript::synced(p, v, whole),
        honest(w, public, acc, p).2.tape.is_prefix_of(whole),
        ({
            let truth = honest(w, public, acc, p).0;
            let (log_t, log_k) = (w.log_t as nat, w.log_k as nat);
            access_weight(truth.seeds, log_t, log_k, v).times(
                said_accesses(rw, log_t, log_k, v).minus(said_accesses(truth.rw, log_t, log_k, v)),
            ) != F::of_int(0)
        }),
    ensures
        verdict(
            (StageClaims { rw, ..honest(w, public, acc, p).0 }),
            w.log_t as nat,
            w.log_k as nat,
            public,
            acc,
            v,
        ).0 == Err::<(), RamStageError>(RamStageError::BatchedClaim),
{
    let truth = honest(w, public, acc, p).0;
    law_complete(w, trace, k, public, acc, p, v, whole);
    law_changed_accesses_refused(
        truth,
        StageClaims { rw, ..truth },
        w.log_t as nat,
        w.log_k as nat,
        public,
        acc,
        v,
    );
}

/// `c ((e a) x) = (c e) (a x)`, a canonical element.
proof fn lemma_term<F: Field>(c: F, e: F, a: F, x: F)
    ensures
        c.times(e.times(a).times(x)) == c.times(e).times(a.times(x)),
        c.times(e).times(a.times(x)).valid(),
{
    F::law_times_assoc(e, a, x);
    F::law_times_assoc(c, e, a.times(x));
    F::law_valid(c.times(e), a.times(x));
}

/// How many elements the rounds of the batched checks have.
pub open spec fn first_read<F: Field>(seeds: Seq<F>, log_t: nat, log_k: nat, s: FsState<F>) -> nat {
    let s1 = s.squeeze_n(log_t).squeeze_n(log_k);
    batching::batch_read(batch_claims(log_t, log_k, seeds, s1.next()))
}

/// How many elements the rounds of all checks have.
pub open spec fn stage_read<F: Field>(seeds: Seq<F>, log_t: nat, log_k: nat, s: FsState<F>) -> nat {
    first_read(seeds, log_t, log_k, s) + log_t * (val_check::DEGREE as nat + 1)
}

/// A change of the tape leaves the drawn points and the challenge as they are.
proof fn lemma_changed_draws<F: Field>(log_t: nat, log_k: nat, s: FsState<F>, j: int, delta: F)
    ensures
        ({
            let t = sumcheck::changed(s, j, delta);
            let (s1, t1) = (s.squeeze_n(log_t), t.squeeze_n(log_t));
            let (s2, t2) = (s1.squeeze_n(log_k), t1.squeeze_n(log_k));
            &&& t.coins(log_t) == s.coins(log_t)
            &&& t1.coins(log_k) == s1.coins(log_k)
            &&& t2.next() == s2.next()
            &&& t2.squeeze() == sumcheck::changed(s2.squeeze(), j, delta)
            &&& s2.squeeze().tape == s.tape
        }),
{
    let s1 = s.squeeze_n(log_t);
    sumcheck::lemma_changed_coins(s, j, delta, log_t);
    sumcheck::lemma_changed_coins(s1, j, delta, log_k);
    transcript::lemma_coins_len(s, log_t);
    transcript::lemma_coins_len(s1, log_k);
}

/// A change behind an accepted proof leaves its verdict as it is.
pub proof fn lemma_changed_later<F: Field>(
    proof: StageClaims<F>,
    log_t: nat,
    log_k: nat,
    public: PublicColumns<F>,
    acc: Claims<F>,
    s: FsState<F>,
    j: int,
    delta: F,
)
    requires
        verdict(proof, log_t, log_k, public, acc, s).0 is Ok,
        stage_read(proof.seeds, log_t, log_k, s) <= j < s.tape.len(),
    ensures
        ({
            let (r, acc1, s1) = verdict(proof, log_t, log_k, public, acc, s);
            let read = stage_read(proof.seeds, log_t, log_k, s);
            &&& verdict(proof, log_t, log_k, public, acc, sumcheck::changed(s, j, delta)) == (
                r,
                acc1,
                sumcheck::changed(s1, j - read, delta),
            )
            &&& s1.tape.len() == s.tape.len() - read
        }),
{
    let s2 = s.squeeze_n(log_t).squeeze_n(log_k);
    let claims = batch_claims(log_t, log_k, proof.seeds, s2.next());
    lemma_changed_draws(log_t, log_k, s, j, delta);
    batching::lemma_batch_changed_later(claims, s2.squeeze(), j, delta);
    let (first, s3) = batch_run(proof.seeds, log_t, log_k, s);
    let k = j - batching::batch_read(claims);
    assert(sumcheck::changed(s3, k, delta).squeeze() == sumcheck::changed(s3.squeeze(), k, delta));
    sumcheck::lemma_changed_later(
        value_claim(proof, log_t, log_k, s),
        Seq::empty(),
        log_t,
        val_check::DEGREE as nat,
        s3.squeeze(),
        k,
        delta,
    );
}

/// An accepted proof is refused when any one element of its rounds is changed.
pub proof fn law_changed_round_refused<F: Field>(
    proof: StageClaims<F>,
    log_t: nat,
    log_k: nat,
    public: PublicColumns<F>,
    acc: Claims<F>,
    s: FsState<F>,
    j: int,
    delta: F,
)
    requires
        verdict(proof, log_t, log_k, public, acc, s).0 is Ok,
        0 <= j < stage_read(proof.seeds, log_t, log_k, s),
        j < s.tape.len(),
        delta.valid(),
        delta != F::of_int(0),
    ensures
        verdict(proof, log_t, log_k, public, acc, sumcheck::changed(s, j, delta)).0 == Err::<
            (),
            RamStageError,
        >(RamStageError::Sumcheck),
{
    let s2 = s.squeeze_n(log_t).squeeze_n(log_k);
    let claims = batch_claims(log_t, log_k, proof.seeds, s2.next());
    lemma_changed_draws(log_t, log_k, s, j, delta);
    if j < batching::batch_read(claims) {
        batching::law_changed_round_refused(claims, s2.squeeze(), j, delta);
    } else {
        batching::lemma_batch_changed_later(claims, s2.squeeze(), j, delta);
        let (first, s3) = batch_run(proof.seeds, log_t, log_k, s);
        let k = j - batching::batch_read(claims);
        assert(sumcheck::changed(s3, k, delta).squeeze() == sumcheck::changed(
            s3.squeeze(),
            k,
            delta,
        ));
        sumcheck::law_changed_round_refused(
            value_claim(proof, log_t, log_k, s),
            Seq::empty(),
            log_t,
            val_check::DEGREE as nat,
            s3.squeeze(),
            k,
            delta,
        );
    }
}

/// Where one proof is accepted, the same proof with the opening of the value increased by one is
/// refused.
pub proof fn law_increased_value_refused<F: Field>(
    accepted: StageClaims<F>,
    log_t: nat,
    log_k: nat,
    public: PublicColumns<F>,
    acc: Claims<F>,
    s: FsState<F>,
)
    requires
        verdict(accepted, log_t, log_k, public, acc, s).0 is Ok,
        accepted.rw.len() == 3,
    ensures
        ({
            let more = accepted.rw.update(0, accepted.rw[0].plus(F::of_int(1)));
            verdict((StageClaims { rw: more, ..accepted }), log_t, log_k, public, acc, s).0 is Err
        }),
{
    let one = F::of_int(1);
    let a = accepted.rw[0];
    let more = accepted.rw.update(0, a.plus(one));
    let proof = StageClaims { rw: more, ..accepted };
    let (first, s1) = batch_run(accepted.seeds, log_t, log_k, s);
    let at = first->Ok_0.0.reverse().take(log_k as int);
    let init = poly::mle(Seq::new(pow2(log_k), |i: int| F::of_int(0)), at);
    let neg = init.times(F::of_int(-1));
    F::law_minus(a, init);
    F::law_minus(a.plus(one), init);
    F::law_plus_assoc(a, one, neg);
    F::law_plus_comm(one, neg);
    F::law_plus_assoc(a, neg, one);
    field::lemma_increase_moves(a.minus(init));
    F::law_valid(a, init);
    F::law_valid(a.plus(one), init);
    field::lemma_sum_apart(
        a.minus(init),
        a.plus(one).minus(init),
        s1.next().times(accepted.oc.minus(init)),
    );
    law_changed_value_claim_refused(accepted, proof, log_t, log_k, public, acc, s);
}

/// The whole run between fresh parties with one label: the proof of a simulated memory with the true
/// output is accepted, and with the opening of the value increased by one it is refused.
pub proof fn law_round_trip<F: Field>(
    w: RamWitness<F>,
    trace: Seq<CycleRow>,
    k: nat,
    public: PublicColumns<F>,
    label: Seq<u8>,
)
    requires
        w.simulates(trace, k),
        witness::addresses_fit(trace, k as int),
        public.sized(w.log_k as nat),
        public.canonical(),
        output_holds(w, public),
    ensures
        ({
            let none = Map::<OpeningId, (Seq<F>, F)>::empty();
            let (log_t, log_k) = (w.log_t as nat, w.log_k as nat);
            let p0 = transcript::fresh(label, Seq::empty());
            let (proof, recorded, p) = honest(w, public, none, p0);
            let v = transcript::fresh(label, p.tape);
            let more = proof.rw.update(0, proof.rw[0].plus(F::of_int(1)));
            let (r, acc, v1) = verdict(proof, log_t, log_k, public, none, v);
            &&& r is Ok
            &&& acc == recorded
            &&& v1.tape.len() == 0
            &&& verdict((StageClaims { rw: more, ..proof }), log_t, log_k, public, none, v).0 is Err
        }),
{
    let none = Map::<OpeningId, (Seq<F>, F)>::empty();
    let (log_t, log_k) = (w.log_t as nat, w.log_k as nat);
    let p0 = transcript::fresh::<F>(label, Seq::empty());
    let (proof, recorded, p) = honest(w, public, none, p0);
    let v = transcript::fresh(label, p.tape);
    transcript::law_fresh(label, p.tape);
    law_complete(w, trace, k, public, none, p0, v, p.tape);
    law_increased_value_refused(proof, log_t, log_k, public, none, v);
}

/// Every claim that an honest RAM stage leaves under a name is true of the column that the name says:
/// the value is the extension of that column at the recorded point. The address claim is that of the
/// physical addresses, each the unmapped one of the word that the cycle marks.
pub proof fn law_named_claims<F: Field>(
    w: RamWitness<F>,
    trace: Seq<CycleRow>,
    k: nat,
    public: PublicColumns<F>,
    acc: Claims<F>,
    p: FsState<F>,
)
    requires
        w.simulates(trace, k),
        witness::addresses_fit(trace, k as int),
        public.sized(w.log_k as nat),
        public.canonical(),
        p.canonical(),
    ensures
        ({
            let acc1 = honest(w, public, acc, p).1;
            let log_t = w.log_t as nat;
            let log_k = w.log_k as nat;
            let told = |id: OpeningId, column: Seq<F>, vars: nat|
                acc1.contains_key(id) && acc1[id].0.len() == vars && acc1[id].1 == poly::mle(
                    column,
                    acc1[id].0,
                );
            let outer = SumcheckId::SpartanOuter;
            let checking = SumcheckId::RamReadWriteChecking;
            let t = pow2(log_t);
            let addresses = Seq::new(
                t,
                |j: int|
                    sums::sum(
                        public.unmap.len() as int,
                        |a: int| w.ra@[a * t + j].times(public.unmap[a]),
                    ),
            );
            &&& told(
                OpeningId::Virtual(VirtualPolynomial::RamReadValue, outer),
                w.ram_read_value@,
                log_t,
            )
            &&& told(
                OpeningId::Virtual(VirtualPolynomial::RamWriteValue, outer),
                w.ram_write_value@,
                log_t,
            )
            &&& told(OpeningId::Virtual(VirtualPolynomial::RamAddress, outer), addresses, log_t)
            &&& told(OpeningId::Virtual(VirtualPolynomial::RamVal, checking), w.val@, log_k + log_t)
            &&& told(OpeningId::Virtual(VirtualPolynomial::RamRa, checking), w.ra@, log_k + log_t)
            &&& told(OpeningId::Committed(CommittedPolynomial::RamInc, checking), w.inc@, log_t)
            &&& told(
                OpeningId::Virtual(VirtualPolynomial::RamRa, SumcheckId::RamRafEvaluation),
                w.ra@,
                log_k + log_t,
            )
            &&& told(
                OpeningId::Virtual(VirtualPolynomial::RamValFinal, SumcheckId::RamOutputCheck),
                w.val_final@,
                log_k,
            )
            &&& told(
                OpeningId::Virtual(VirtualPolynomial::RamRa, SumcheckId::RamValCheck),
                w.ra@,
                log_k + log_t,
            )
            &&& told(
                OpeningId::Committed(CommittedPolynomial::RamInc, SumcheckId::RamValCheck),
                w.inc@,
                log_t,
            )
        }),
{
    law_openings(w, trace, k, public, acc, p);
    transcript::lemma_coins_len(p, w.log_t as nat);
    lemma_seeds_kept(w, public, acc, p);
}

/// The memory values stay recorded at the fresh cycle point.
proof fn lemma_seeds_kept<F: Field>(
    w: RamWitness<F>,
    public: PublicColumns<F>,
    acc: Claims<F>,
    p: FsState<F>,
)
    ensures
        ({
            let (claims, acc1, p1) = honest(w, public, acc, p);
            let r = p.coins(w.log_t as nat);
            &&& acc1.contains_key(outer_id(VirtualPolynomial::RamReadValue))
            &&& acc1.contains_key(outer_id(VirtualPolynomial::RamWriteValue))
            &&& acc1.contains_key(outer_id(VirtualPolynomial::RamAddress))
            &&& acc1[outer_id(VirtualPolynomial::RamReadValue)] == (r, claims.seeds[0])
            &&& acc1[outer_id(VirtualPolynomial::RamWriteValue)] == (r, claims.seeds[1])
            &&& acc1[outer_id(VirtualPolynomial::RamAddress)] == (r, claims.seeds[2])
        }),
{
}

} // verus!
