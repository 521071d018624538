//! The registers stage: three sumchecks on one transcript.
//!
//! The value claims of the register file at a fresh cycle point are reduced to one point, checked
//! against the simulated register file, and the value opened there is checked against the
//! increments.

use crate::field;
use crate::field::Field;
use crate::framework::accumulator;
use crate::framework::accumulator::{
    Claims, CommittedPolynomial, OpeningId, Openings, SumcheckId, VirtualPolynomial,
};
use crate::framework::poly;
use crate::framework::sumcheck;
use crate::framework::sumcheck::{SumTable, SumcheckClaim, SumcheckError};
use crate::framework::sums;
use crate::framework::transcript;
use crate::framework::transcript::{FsState, ProverFs, VerifierFs};
use crate::zkvm::access;
use crate::zkvm::claim_reductions::registers as claim_reduction;
use crate::zkvm::claim_reductions::registers::{
    RegistersClaimReduction, RegistersClaimReductionParams,
};
use crate::zkvm::registers::read_write_checking;
use crate::zkvm::registers::read_write_checking::{
    Reduced, RegistersReadWriteChecking, RegistersReadWriteCheckingParams,
};
use crate::zkvm::registers::val_evaluation;
use crate::zkvm::registers::val_evaluation::{
    RegistersValEvaluation, RegistersValEvaluationParams,
};
use crate::zkvm::registers::witness;
use crate::zkvm::registers::witness::RegisterWitness;
use crate::zkvm::trace::CycleRow;
use vstd::arithmetic::power2::pow2;
use vstd::prelude::*;

verus! {

/// Why a registers proof is rejected.
#[derive(Clone, Copy, Debug, PartialEq, Eq, Structural)]
pub enum RegistersStageError {
    Sumcheck,
    ClaimReductionClaim,
    ReadWriteClaim,
    ValEvaluationClaim,
}

/// The claims the prover hands to the verifier.
#[derive(Debug)]
pub struct RegistersStageProof<F> {
    /// The written value and the two read values at the fresh cycle point.
    pub spartan_seeds: [F; 3],
    /// The same values at the reduced point.
    pub cr_openings: [F; 3],
    /// The value, the two read marks, the write mark and the increment of the read-write check.
    pub rw_openings: [F; 5],
    /// The increment and the write mark of the value evaluation.
    pub ve_openings: [F; 2],
}

/// The claims of a registers proof.
#[verifier::ext_equal]
#[verifier::reject_recursive_types(F)]
pub struct StageClaims<F> {
    pub seeds: Seq<F>,
    pub cr: Seq<F>,
    pub rw: Seq<F>,
    pub ve: Seq<F>,
}

impl<F: Field> View for RegistersStageProof<F> {
    type V = StageClaims<F>;

    open spec fn view(&self) -> StageClaims<F> {
        StageClaims {
            seeds: self.spartan_seeds@,
            cr: self.cr_openings@,
            rw: self.rw_openings@,
            ve: self.ve_openings@,
        }
    }
}

/// The name of a claim of the outer sumcheck.
pub open spec fn outer_id(p: VirtualPolynomial) -> OpeningId {
    accumulator::virt(p, SumcheckId::SpartanOuter)
}

/// The claims after the register values are recorded at the fresh cycle point.
pub open spec fn seeded<F: Field>(acc: Claims<F>, point: Seq<F>, seeds: Seq<F>) -> Claims<F> {
    acc.insert(outer_id(VirtualPolynomial::LookupOutput), (point, F::of_int(0))).insert(
        outer_id(VirtualPolynomial::RdWriteValue),
        (point, seeds[0]),
    ).insert(outer_id(VirtualPolynomial::Rs1Value), (point, seeds[1])).insert(
        outer_id(VirtualPolynomial::Rs2Value),
        (point, seeds[2]),
    )
}

/// Record the register values at the fresh cycle point.
fn seed_spartan_outer<F: Field>(accumulator: &mut Openings<F>, point: &[F], seeds: &[F; 3])
    ensures
        final(accumulator)@ == seeded(old(accumulator)@, point@, seeds@),
        final(accumulator).log_t == old(accumulator).log_t,
{
    let id: SumcheckId = SumcheckId::SpartanOuter;
    accumulator.append_virtual(
        VirtualPolynomial::LookupOutput,
        id,
        poly::copied(point),
        field::zero(),
    );
    accumulator.append_virtual(
        VirtualPolynomial::RdWriteValue,
        id,
        poly::copied(point),
        seeds[0],
    );
    accumulator.append_virtual(VirtualPolynomial::Rs1Value, id, poly::copied(point), seeds[1]);
    accumulator.append_virtual(VirtualPolynomial::Rs2Value, id, poly::copied(point), seeds[2]);
}

/// The five openings of the read-write check.
pub open spec fn reduced<F: Field>(rw: Seq<F>) -> Reduced<F> {
    Reduced { val: rw[0], rs1_ra: rw[1], rs2_ra: rw[2], rd_wa: rw[3], inc: rw[4] }
}

/// The table of the claim reduction.
pub open spec fn cr_table<F: Field>(w: RegisterWitness<F>, r: Seq<F>, g: F) -> SumTable<F> {
    claim_reduction::table(
        g,
        g.times(g),
        r,
        w.rd_write_value@,
        w.rs1_value@,
        w.rs2_value@,
    )
}

/// The table of the read-write check.
pub open spec fn rw_table<F: Field>(w: RegisterWitness<F>, r: Seq<F>, g: F) -> SumTable<F> {
    read_write_checking::table(g, g.times(g), r, w.matrices())
}

/// The table of the value evaluation at the point of the read-write check.
pub open spec fn ve_table<F: Field>(w: RegisterWitness<F>, y: Seq<F>) -> SumTable<F> {
    val_evaluation::table(
        y.skip(w.log_k as int),
        w.inc@,
        access::at_address(w.wa@, y.take(w.log_k as int), pow2(w.log_t as nat)),
    )
}

/// The claims, the records and the transcript of an honest registers stage.
pub open spec fn honest<F: Field>(w: RegisterWitness<F>, acc: Claims<F>, s: FsState<F>) -> (
    StageClaims<F>,
    Claims<F>,
    FsState<F>,
) {
    let log_t = w.log_t as nat;
    let log_k = w.log_k as nat;
    let r = s.coins(log_t);
    let s1 = s.squeeze_n(log_t);
    let seeds = seq![
        poly::mle(w.rd_write_value@, r),
        poly::mle(w.rs1_value@, r),
        poly::mle(w.rs2_value@, r),
    ];
    let acc1 = seeded(acc, r, seeds);
    let t1 = cr_table(w, r, s1.next());
    let (xs, s2) = sumcheck::prove_run(t1, log_t, s1.squeeze());
    let row1 = sumcheck::bound_row(t1.columns, xs);
    let cr = seq![row1[1], row1[2], row1[3]];
    let acc2 = claim_reduction::cached(acc1, xs, cr[0], cr[1], cr[2]);
    let t2 = rw_table(w, xs.reverse(), s2.next());
    let (ys, s3) = sumcheck::prove_run(t2, log_k + log_t, s2.squeeze());
    let row2 = sumcheck::bound_row(t2.columns, ys);
    let rw = seq![row2[4], row2[1], row2[2], row2[3], row2[5]];
    let acc3 = read_write_checking::cached(acc2, log_k as int, ys, reduced(rw));
    let t3 = ve_table(w, ys.reverse());
    let (zs, s4) = sumcheck::prove_run(t3, log_t, s3);
    let row3 = sumcheck::bound_row(t3.columns, zs);
    let ve = seq![row3[0], row3[1]];
    let acc4 = val_evaluation::cached(acc3, ys.reverse().take(log_k as int), zs, ve[0], ve[1]);
    (StageClaims { seeds, cr, rw, ve }, acc4, s4)
}

/// Prove the registers stage.
pub fn prove_registers<F: Field, T: ProverFs<F>>(
    reg: &RegisterWitness<F>,
    accumulator: &mut Openings<F>,
    transcript: &mut T,
) -> (proof: RegistersStageProof<F>)
    requires
        reg.sized(),
        reg.log_k + reg.log_t <= usize::MAX,
    ensures
        (proof@, final(accumulator)@, final(transcript).state()) == honest(
            *reg,
            old(accumulator)@,
            old(transcript).state(),
        ),
{
    let ghost acc0 = accumulator@;
    let ghost s0 = transcript.state();
    let ghost log_t = reg.log_t as nat;
    let ghost log_k = reg.log_k as nat;
    let size: usize = reg.ra1.len();
    let cycles: usize = reg.inc.len();
    proof {
        poly::lemma_pow2_concat(log_k, log_t);
        vstd::arithmetic::power2::lemma_pow2_pos(log_t);
        vstd::arithmetic::power2::lemma_pow2_pos(log_k);
        transcript::lemma_coins_len(s0, log_t);
        assert(pow2(log_k) <= size) by (nonlinear_arith)
            requires
                size == pow2(log_k) * pow2(log_t),
                pow2(log_t) >= 1,
        ;
    }
    let r_spartan: Vec<F> = transcript::challenge_vector(transcript, reg.log_t);
    let spartan_seeds: [F; 3] = [
        poly::evaluate(&reg.rd_write_value, &r_spartan),
        poly::evaluate(&reg.rs1_value, &r_spartan),
        poly::evaluate(&reg.rs2_value, &r_spartan),
    ];
    seed_spartan_outer(accumulator, &r_spartan, &spartan_seeds);

    // Reduce the three value claims to one point.
    let cr_params: RegistersClaimReductionParams<F> = RegistersClaimReductionParams::new(
        reg.log_t,
        accumulator,
        transcript,
    );
    let mut cr: RegistersClaimReduction<F> = RegistersClaimReduction::new_prover(
        cr_params,
        poly::copied(&reg.rd_write_value),
        poly::copied(&reg.rs1_value),
        poly::copied(&reg.rs2_value),
    );
    let ghost t1 = cr.sum@;
    proof {
        claim_reduction::law_table_shaped(
            cr_params.gamma,
            cr_params.gamma_sqr,
            r_spartan@,
            reg.rd_write_value@,
            reg.rs1_value@,
            reg.rs2_value@,
        );
    }
    let xs: Vec<F> = sumcheck::prove(&mut cr.sum, reg.log_t, transcript);
    proof {
        sumcheck::lemma_opened(t1, xs@, cr.sum@);
    }
    cr.cache_openings(accumulator, &xs);
    let id1: SumcheckId = SumcheckId::RegistersClaimReduction;
    let cr_openings: [F; 3] = [
        accumulator.virtual_claim(VirtualPolynomial::RdWriteValue, id1),
        accumulator.virtual_claim(VirtualPolynomial::Rs1Value, id1),
        accumulator.virtual_claim(VirtualPolynomial::Rs2Value, id1),
    ];

    // Check the reads and the writes against the simulated register file.
    let rw_params: RegistersReadWriteCheckingParams<F> = RegistersReadWriteCheckingParams::new(
        accumulator,
        reg.log_k,
        transcript,
    );
    let ghost r1 = rw_params.r_cycle@;
    assert(r1 == xs@.reverse());
    let mut rw: RegistersReadWriteChecking<F> = RegistersReadWriteChecking::new_prover(
        rw_params,
        poly::copied(&reg.ra1),
        poly::copied(&reg.ra2),
        poly::copied(&reg.wa),
        poly::copied(&reg.val),
        poly::copied(&reg.inc),
    );
    let ghost t2 = rw.sum@;
    proof {
        read_write_checking::law_table_shaped(
            rw_params.gamma,
            rw_params.gamma.times(rw_params.gamma),
            r1,
            reg.matrices(),
            log_k + log_t,
        );
    }
    let ys: Vec<F> = sumcheck::prove(&mut rw.sum, reg.log_k + reg.log_t, transcript);
    proof {
        sumcheck::lemma_opened(t2, ys@, rw.sum@);
    }
    rw.cache_openings(accumulator, &ys);
    let id2: SumcheckId = SumcheckId::RegistersReadWriteChecking;
    let rw_openings: [F; 5] = [
        accumulator.virtual_claim(VirtualPolynomial::RegistersVal, id2),
        accumulator.virtual_claim(VirtualPolynomial::Rs1Ra, id2),
        accumulator.virtual_claim(VirtualPolynomial::Rs2Ra, id2),
        accumulator.virtual_claim(VirtualPolynomial::RdWa, id2),
        accumulator.committed_claim(CommittedPolynomial::RdInc, id2),
    ];

    // Check the value opened there against the increments.
    let ve_params: RegistersValEvaluationParams<F> = RegistersValEvaluationParams::new(
        accumulator,
        reg.log_k,
    );
    let ghost y = ys@.reverse();
    assert(ve_params.r_address@ == y.take(log_k as int));
    let wa_col: Vec<F> = access::matrix_at_address(&reg.wa, &ve_params.r_address, cycles);
    let mut ve: RegistersValEvaluation<F> = RegistersValEvaluation::new_prover(
        ve_params,
        poly::copied(&reg.inc),
        wa_col,
    );
    let ghost t3 = ve.sum@;
    proof {
        val_evaluation::law_table_shaped(y.skip(log_k as int), reg.inc@, wa_col@);
    }
    let zs: Vec<F> = sumcheck::prove(&mut ve.sum, reg.log_t, transcript);
    proof {
        sumcheck::lemma_opened(t3, zs@, ve.sum@);
    }
    ve.cache_openings(accumulator, &zs);
    let id3: SumcheckId = SumcheckId::RegistersValEvaluation;
    let ve_openings: [F; 2] = [
        accumulator.committed_claim(CommittedPolynomial::RdInc, id3),
        accumulator.virtual_claim(VirtualPolynomial::RdWa, id3),
    ];
    let proof_out: RegistersStageProof<F> = RegistersStageProof {
        spartan_seeds,
        cr_openings,
        rw_openings,
        ve_openings,
    };
    assert(proof_out@ =~= honest(*reg, acc0, s0).0);
    proof_out
}

/// The verdict on a registers proof, the recorded claims, and the transcript after it.
pub open spec fn verdict<F: Field>(
    proof: StageClaims<F>,
    log_t: nat,
    log_k: nat,
    acc: Claims<F>,
    s: FsState<F>,
) -> (Result<(), RegistersStageError>, Claims<F>, FsState<F>) {
    let r = s.coins(log_t);
    let s1 = s.squeeze_n(log_t);
    let acc1 = seeded(acc, r, proof.seeds);
    let g1 = s1.next();
    let h1 = g1.times(g1);
    let claim1 = claim_reduction::batch(g1, h1, proof.seeds[0], proof.seeds[1], proof.seeds[2]);
    let (first, s2) = sumcheck::verify_run(
        claim1,
        log_t,
        claim_reduction::DEGREE as nat,
        s1.squeeze(),
    );
    match first {
        Err(_) => (Err(RegistersStageError::Sumcheck), acc1, s2),
        Ok((xs, value1)) => {
            let acc2 = claim_reduction::cached(
                acc1,
                xs,
                proof.cr[0],
                proof.cr[1],
                proof.cr[2],
            );
            if value1 != claim_reduction::output(g1, h1, r, acc2, xs) {
                (Err(RegistersStageError::ClaimReductionClaim), acc2, s2)
            } else {
                verdict_rw(proof, log_t, log_k, xs.reverse(), acc2, s2)
            }
        },
    }
}

/// The verdict from the read-write check on.
pub open spec fn verdict_rw<F: Field>(
    proof: StageClaims<F>,
    log_t: nat,
    log_k: nat,
    r: Seq<F>,
    acc: Claims<F>,
    s: FsState<F>,
) -> (Result<(), RegistersStageError>, Claims<F>, FsState<F>) {
    let g = s.next();
    let claim = read_write_checking::batch(g, proof.cr[0], proof.cr[1], proof.cr[2]);
    let (second, s1) = sumcheck::verify_run(
        claim,
        log_k + log_t,
        read_write_checking::DEGREE as nat,
        s.squeeze(),
    );
    match second {
        Err(_) => (Err(RegistersStageError::Sumcheck), acc, s1),
        Ok((ys, value)) => {
            let acc1 = read_write_checking::cached(acc, log_k as int, ys, reduced(proof.rw));
            if value != read_write_checking::output(g, r, log_k as int, acc1, ys) {
                (Err(RegistersStageError::ReadWriteClaim), acc1, s1)
            } else {
                verdict_ve(proof, log_t, log_k, ys.reverse(), acc1, s1)
            }
        },
    }
}

/// The verdict from the value evaluation on.
pub open spec fn verdict_ve<F: Field>(
    proof: StageClaims<F>,
    log_t: nat,
    log_k: nat,
    y: Seq<F>,
    acc: Claims<F>,
    s: FsState<F>,
) -> (Result<(), RegistersStageError>, Claims<F>, FsState<F>) {
    let (third, s1) = sumcheck::verify_run(
        proof.rw[0],
        log_t,
        val_evaluation::DEGREE as nat,
        s,
    );
    match third {
        Err(_) => (Err(RegistersStageError::Sumcheck), acc, s1),
        Ok((zs, value)) => {
            let acc1 = val_evaluation::cached(
                acc,
                y.take(log_k as int),
                zs,
                proof.ve[0],
                proof.ve[1],
            );
            if value != val_evaluation::output(y.skip(log_k as int), acc1, zs) {
                (Err(RegistersStageError::ValEvaluationClaim), acc1, s1)
            } else {
                (Ok(()), acc1, s1)
            }
        },
    }
}

/// Verify the registers stage.
pub fn verify_registers<F: Field, T: VerifierFs<F>>(
    proof: &RegistersStageProof<F>,
    log_t: usize,
    log_k: usize,
    accumulator: &mut Openings<F>,
    transcript: &mut T,
) -> (r: Result<(), RegistersStageError>)
    requires
        log_k + log_t <= usize::MAX,
    ensures
        (r, final(accumulator)@, final(transcript).state()) == verdict(
            proof@,
            log_t as nat,
            log_k as nat,
            old(accumulator)@,
            old(transcript).state(),
        ),
{
    proof {
        transcript::lemma_coins_len(transcript.state(), log_t as nat);
    }
    let r_spartan: Vec<F> = transcript::challenge_vector(transcript, log_t);
    seed_spartan_outer(accumulator, &r_spartan, &proof.spartan_seeds);

    let cr_params: RegistersClaimReductionParams<F> = RegistersClaimReductionParams::new(
        log_t,
        accumulator,
        transcript,
    );
    let cr: RegistersClaimReduction<F> = RegistersClaimReduction::new_verifier(cr_params);
    let cr_claim: SumcheckClaim<F> = SumcheckClaim {
        num_vars: log_t,
        degree: claim_reduction::DEGREE,
        claimed_sum: cr.input_claim(accumulator),
    };
    let cr_eval = match sumcheck::verify(&cr_claim, transcript) {
        Err(_) => {
            return Err(RegistersStageError::Sumcheck);
        },
        Ok(e) => e,
    };
    record_reduction(accumulator, &cr_eval.point, &proof.cr_openings);
    let cr_expected: F = cr.expected_output_claim(accumulator, &cr_eval.point);
    if !cr_eval.value.same(cr_expected) {
        return Err(RegistersStageError::ClaimReductionClaim);
    }

    let ghost acc2 = accumulator@;
    let ghost s2 = transcript.state();
    let rw_params: RegistersReadWriteCheckingParams<F> = RegistersReadWriteCheckingParams::new(
        accumulator,
        log_k,
        transcript,
    );
    let rw: RegistersReadWriteChecking<F> = RegistersReadWriteChecking::new_verifier(rw_params);
    let rw_claim: SumcheckClaim<F> = SumcheckClaim {
        num_vars: log_k + log_t,
        degree: read_write_checking::DEGREE,
        claimed_sum: rw.params.input_claim(accumulator),
    };
    let rw_eval = match sumcheck::verify(&rw_claim, transcript) {
        Err(_) => {
            return Err(RegistersStageError::Sumcheck);
        },
        Ok(e) => e,
    };
    record_read_write(accumulator, log_k, &rw_eval.point, &proof.rw_openings);
    let rw_expected: F = rw.expected_output_claim(accumulator, &rw_eval.point);
    if !rw_eval.value.same(rw_expected) {
        return Err(RegistersStageError::ReadWriteClaim);
    }

    let ve_params: RegistersValEvaluationParams<F> = RegistersValEvaluationParams::new(
        accumulator,
        log_k,
    );
    let ve: RegistersValEvaluation<F> = RegistersValEvaluation::new_verifier(ve_params);
    let ve_claim: SumcheckClaim<F> = SumcheckClaim {
        num_vars: log_t,
        degree: val_evaluation::DEGREE,
        claimed_sum: proof.rw_openings[0],
    };
    let ve_eval = match sumcheck::verify(&ve_claim, transcript) {
        Err(_) => {
            return Err(RegistersStageError::Sumcheck);
        },
        Ok(e) => e,
    };
    record_evaluation(accumulator, &ve.params.r_address, &ve_eval.point, &proof.ve_openings);
    let ve_expected: F = ve.expected_output_claim(accumulator, &ve_eval.point);
    if !ve_eval.value.same(ve_expected) {
        return Err(RegistersStageError::ValEvaluationClaim);
    }
    Ok(())
}

/// Record the openings of the claim reduction.
fn record_reduction<F: Field>(accumulator: &mut Openings<F>, challenges: &[F], values: &[F; 3])
    ensures
        final(accumulator)@ == claim_reduction::cached(
            old(accumulator)@,
            challenges@,
            values@[0],
            values@[1],
            values@[2],
        ),
{
    let id: SumcheckId = SumcheckId::RegistersClaimReduction;
    let point: Vec<F> = poly::reversed(challenges);
    accumulator.append_virtual(
        VirtualPolynomial::RdWriteValue,
        id,
        poly::copied(&point),
        values[0],
    );
    accumulator.append_virtual(VirtualPolynomial::Rs1Value, id, poly::copied(&point), values[1]);
    accumulator.append_virtual(VirtualPolynomial::Rs2Value, id, point, values[2]);
}

/// Record the openings of the read-write check.
fn record_read_write<F: Field>(
    accumulator: &mut Openings<F>,
    log_k: usize,
    challenges: &[F],
    values: &[F; 5],
)
    requires
        log_k <= challenges@.len(),
    ensures
        final(accumulator)@ == read_write_checking::cached(
            old(accumulator)@,
            log_k as int,
            challenges@,
            reduced(values@),
        ),
{
    let id: SumcheckId = SumcheckId::RegistersReadWriteChecking;
    let point: Vec<F> = poly::reversed(challenges);
    let len: usize = point.len();
    let cycle: Vec<F> = poly::range(&point, log_k, len);
    assert(cycle@ =~= point@.skip(log_k as int));
    accumulator.append_virtual(
        VirtualPolynomial::RegistersVal,
        id,
        poly::copied(&point),
        values[0],
    );
    accumulator.append_virtual(VirtualPolynomial::Rs1Ra, id, poly::copied(&point), values[1]);
    accumulator.append_virtual(VirtualPolynomial::Rs2Ra, id, poly::copied(&point), values[2]);
    accumulator.append_virtual(VirtualPolynomial::RdWa, id, point, values[3]);
    accumulator.append_dense(CommittedPolynomial::RdInc, id, cycle, values[4]);
}

/// Record the openings of the value evaluation.
fn record_evaluation<F: Field>(
    accumulator: &mut Openings<F>,
    r_address: &[F],
    challenges: &[F],
    values: &[F; 2],
)
    ensures
        final(accumulator)@ == val_evaluation::cached(
            old(accumulator)@,
            r_address@,
            challenges@,
            values@[0],
            values@[1],
        ),
{
    let id: SumcheckId = SumcheckId::RegistersValEvaluation;
    let cycle: Vec<F> = poly::reversed(challenges);
    let full: Vec<F> = poly::concat(r_address, &cycle);
    accumulator.append_dense(CommittedPolynomial::RdInc, id, cycle, values[0]);
    accumulator.append_virtual(VirtualPolynomial::RdWa, id, full, values[1]);
}

/// Completeness: the honest proof of a simulated register file is accepted, both parties record the
/// same claims, and they stay synchronised.
pub proof fn law_complete<F: Field>(
    w: RegisterWitness<F>,
    trace: Seq<CycleRow>,
    k: nat,
    acc: Claims<F>,
    p: FsState<F>,
    v: FsState<F>,
    whole: Seq<F>,
)
    requires
        w.simulates(trace, k),
        witness::registers_fit(trace, k as int),
        p.canonical(),
        transcript::synced(p, v, whole),
        honest(w, acc, p).2.tape.is_prefix_of(whole),
    ensures
        ({
            let (claims, acc1, p1) = honest(w, acc, p);
            let (r, acc2, v1) = verdict(claims, w.log_t as nat, w.log_k as nat, acc, v);
            &&& r is Ok
            &&& acc2 == acc1
            &&& transcript::synced(p1, v1, whole)
            &&& p1.canonical()
            &&& p.tape.is_prefix_of(p1.tape)
        }),
{
    let log_t = w.log_t as nat;
    let log_k = w.log_k as nat;
    let later = honest(w, acc, p).2.tape;
    witness::lemma_witness_valid(w, trace, k);
    poly::lemma_pow2_concat(log_k, log_t);
    transcript::lemma_coins_len(p, log_t);
    transcript::lemma_synced_squeeze_n(p, v, whole, log_t);
    let r = p.coins(log_t);
    let p1 = p.squeeze_n(log_t);
    let v1 = v.squeeze_n(log_t);
    let g1 = p1.next();
    let h1 = g1.times(g1);
    let seeds = honest(w, acc, p).0.seeds;
    let acc1 = seeded(acc, r, seeds);
    transcript::lemma_synced_squeeze(p1, v1, whole);
    F::law_valid(g1, g1);
    let t1 = cr_table(w, r, g1);
    let (xs, p2) = sumcheck::prove_run(t1, log_t, p1.squeeze());
    let row1 = sumcheck::bound_row(t1.columns, xs);
    let acc2 = claim_reduction::cached(acc1, xs, row1[1], row1[2], row1[3]);
    let g2 = p2.next();
    let r2 = xs.reverse();
    let t2 = rw_table(w, r2, g2);
    let (ys, p3) = sumcheck::prove_run(t2, log_k + log_t, p2.squeeze());
    let row2 = sumcheck::bound_row(t2.columns, ys);
    let y = ys.reverse();
    let t3 = ve_table(w, y);
    let (zs, p4) = sumcheck::prove_run(t3, log_t, p3);
    // every step only appends to the tape
    sumcheck::lemma_run_extends(t1, log_t, p1.squeeze());
    sumcheck::lemma_run_extends(t2, log_k + log_t, p2.squeeze());
    sumcheck::lemma_run_extends(t3, log_t, p3);
    assert(p4.tape == later);
    transcript::lemma_prefix_trans(p2.tape, p3.tape, later);
    transcript::lemma_prefix_trans(p.tape, p2.tape, later);
    // the claim reduction
    claim_reduction::law_table_shaped(
        g1,
        h1,
        r,
        w.rd_write_value@,
        w.rs1_value@,
        w.rs2_value@,
    );
    claim_reduction::law_total(g1, h1, r, w.rd_write_value@, w.rs1_value@, w.rs2_value@);
    sumcheck::lemma_step_complete(t1, log_t, p1.squeeze(), v1.squeeze(), whole, later);
    claim_reduction::law_output(
        g1,
        h1,
        r,
        w.rd_write_value@,
        w.rs1_value@,
        w.rs2_value@,
        acc1,
        xs,
    );
    let v2 = sumcheck::verify_run(
        t1.total(),
        log_t,
        claim_reduction::DEGREE as nat,
        v1.squeeze(),
    ).1;
    // the read-write check
    transcript::lemma_synced_squeeze(p2, v2, whole);
    F::law_valid(g2, g2);
    let m = w.matrices();
    read_write_checking::law_table_shaped(g2, g2.times(g2), r2, m, log_k + log_t);
    witness::law_read_write_relation(w, trace, k, g2, r2);
    sumcheck::lemma_step_complete(
        t2,
        log_k + log_t,
        p2.squeeze(),
        v2.squeeze(),
        whole,
        later,
    );
    read_write_checking::law_output(g2, r2, m, acc2, log_k, ys);
    let v3 = sumcheck::verify_run(
        t2.total(),
        log_k + log_t,
        read_write_checking::DEGREE as nat,
        v2.squeeze(),
    ).1;
    let rw = honest(w, acc, p).0.rw;
    let acc3 = read_write_checking::cached(acc2, log_k as int, ys, reduced(rw));
    // the value evaluation
    let ra = y.take(log_k as int);
    let rc = y.skip(log_k as int);
    let wa = access::at_address(w.wa@, ra, pow2(log_t));
    assert(field::all_valid(wa)) by {
        assert forall|j: int| 0 <= j < wa.len() implies (#[trigger] wa[j]).valid() by {
            sums::lemma_sum_valid(
                pow2(ra.len()) as int,
                |k: int| poly::eq_weight(ra, k).times(w.wa@[k * pow2(log_t) + j]),
            );
        }
    }
    val_evaluation::law_table_shaped(rc, w.inc@, wa);
    witness::law_value_relation(w, trace, k, ra, rc);
    assert(y =~= ra + rc);
    assert(row2[4] == poly::mle(w.val@, y)) by {
        assert(t2.columns[4] == w.val@);
    }
    sumcheck::lemma_step_complete(t3, log_t, p3, v3, whole, later);
    val_evaluation::law_output(rc, w.inc@, wa, acc3, ra, zs);
}

/// The increment claims a registers stage leaves behind are true: each is the extension of the
/// increment column at its point.
pub proof fn law_openings<F: Field>(
    w: RegisterWitness<F>,
    trace: Seq<CycleRow>,
    k: nat,
    acc: Claims<F>,
    p: FsState<F>,
)
    requires
        w.simulates(trace, k),
        witness::registers_fit(trace, k as int),
        p.canonical(),
    ensures
        ({
            let acc1 = honest(w, acc, p).1;
            let n = w.log_k as nat + w.log_t as nat;
            let log_t = w.log_t as nat;
            &&& accumulator::opens(acc1, read_write_checking::val_id(), w.val@, n)
            &&& accumulator::opens(acc1, read_write_checking::rs1_ra_id(), w.ra1@, n)
            &&& accumulator::opens(acc1, read_write_checking::rs2_ra_id(), w.ra2@, n)
            &&& accumulator::opens(acc1, read_write_checking::rd_wa_id(), w.wa@, n)
            &&& accumulator::opens(acc1, read_write_checking::inc_id(), w.inc@, log_t)
            &&& accumulator::opens(acc1, val_evaluation::inc_id(), w.inc@, log_t)
            &&& accumulator::opens(acc1, val_evaluation::wa_id(), w.wa@, n)
        }),
{
    let log_t = w.log_t as nat;
    let log_k = w.log_k as nat;
    witness::lemma_witness_valid(w, trace, k);
    poly::lemma_pow2_concat(log_k, log_t);
    transcript::lemma_coins_len(p, log_t);
    let r = p.coins(log_t);
    let p1 = p.squeeze_n(log_t);
    let t1 = cr_table(w, r, p1.next());
    let (xs, p2) = sumcheck::prove_run(t1, log_t, p1.squeeze());
    sumcheck::lemma_run_extends(t1, log_t, p1.squeeze());
    let g2 = p2.next();
    assert(p2.canonical());
    F::law_valid(g2, g2);
    let r2 = xs.reverse();
    let t2 = rw_table(w, r2, g2);
    let m = w.matrices();
    read_write_checking::law_table_shaped(g2, g2.times(g2), r2, m, log_k + log_t);
    let (ys, p3) = sumcheck::prove_run(t2, log_k + log_t, p2.squeeze());
    sumcheck::lemma_run_extends(t2, log_k + log_t, p2.squeeze());
    sumcheck::lemma_bound_columns(t2, ys);
    read_write_checking::law_output(g2, r2, m, acc, log_k, ys);
    let y = ys.reverse();
    let ra = y.take(log_k as int);
    let rc = y.skip(log_k as int);
    let wa = access::at_address(w.wa@, ra, pow2(log_t));
    assert(field::all_valid(wa)) by {
        assert forall|j: int| 0 <= j < wa.len() implies (#[trigger] wa[j]).valid() by {
            sums::lemma_sum_valid(
                pow2(ra.len()) as int,
                |k: int| poly::eq_weight(ra, k).times(w.wa@[k * pow2(log_t) + j]),
            );
        }
    }
    val_evaluation::law_table_shaped(rc, w.inc@, wa);
    let t3 = ve_table(w, y);
    let zs = sumcheck::prove_run(t3, log_t, p3).0;
    sumcheck::lemma_run_extends(t3, log_t, p3);
    sumcheck::lemma_bound_columns(t3, zs);
    access::lemma_at_address(w.wa@, ra, zs.reverse());
    let row2 = sumcheck::final_row(t2.columns, ys);
    let row3 = sumcheck::final_row(t3.columns, zs);
    assert(row2[1] == poly::mle(w.ra1@, y) && row2[2] == poly::mle(w.ra2@, y));
    assert(row2[3] == poly::mle(w.wa@, y) && row2[4] == poly::mle(w.val@, y));
    assert(row3[0] == poly::mle(w.inc@, zs.reverse()) && row3[1] == poly::mle(wa, zs.reverse()));
}

/// The claims that the registers stage may overwrite.
pub open spec fn own_ids() -> Set<OpeningId> {
    set![
        outer_id(VirtualPolynomial::LookupOutput),
        outer_id(VirtualPolynomial::RdWriteValue),
        outer_id(VirtualPolynomial::Rs1Value),
        outer_id(VirtualPolynomial::Rs2Value),
        read_write_checking::rd_id(),
        read_write_checking::rs1_id(),
        read_write_checking::rs2_id(),
        read_write_checking::val_id(),
        read_write_checking::rs1_ra_id(),
        read_write_checking::rs2_ra_id(),
        read_write_checking::rd_wa_id(),
        read_write_checking::inc_id(),
        val_evaluation::inc_id(),
        val_evaluation::wa_id(),
    ]
}

/// The honest stage leaves all other claims as they were.
pub proof fn lemma_honest_keeps<F: Field>(w: RegisterWitness<F>, acc: Claims<F>, p: FsState<F>)
    ensures
        forall|id: OpeningId|
            !own_ids().contains(id) ==> #[trigger] accumulator::kept(acc, honest(w, acc, p).1, id),
{
}

/// The increment claims of the honest stage are recorded at cycle points.
pub proof fn lemma_honest_recorded<F: Field>(w: RegisterWitness<F>, acc: Claims<F>, p: FsState<F>)
    ensures
        accumulator::recorded(
            honest(w, acc, p).1,
            read_write_checking::inc_id(),
            w.log_t as nat,
        ),
        accumulator::recorded(honest(w, acc, p).1, val_evaluation::inc_id(), w.log_t as nat),
{
    let log_t = w.log_t as nat;
    let log_k = w.log_k as nat;
    let p1 = p.squeeze_n(log_t);
    let t1 = cr_table(w, p.coins(log_t), p1.next());
    let (xs, p2) = sumcheck::prove_run(t1, log_t, p1.squeeze());
    let t2 = rw_table(w, xs.reverse(), p2.next());
    let (ys, p3) = sumcheck::prove_run(t2, log_k + log_t, p2.squeeze());
    sumcheck::lemma_run_extends(t2, log_k + log_t, p2.squeeze());
    sumcheck::lemma_run_extends(ve_table(w, ys.reverse()), log_t, p3);
}

/// The honest stage only appends to the tape.
pub proof fn lemma_honest_extends<F: Field>(w: RegisterWitness<F>, acc: Claims<F>, p: FsState<F>)
    ensures
        p.tape.is_prefix_of(honest(w, acc, p).2.tape),
        honest(w, acc, p).2.coin == p.coin,
{
    let log_t = w.log_t as nat;
    let log_k = w.log_k as nat;
    transcript::lemma_coins_len(p, log_t);
    let p1 = p.squeeze_n(log_t);
    let t1 = cr_table(w, p.coins(log_t), p1.next());
    let (xs, p2) = sumcheck::prove_run(t1, log_t, p1.squeeze());
    let t2 = rw_table(w, xs.reverse(), p2.next());
    let (ys, p3) = sumcheck::prove_run(t2, log_k + log_t, p2.squeeze());
    let t3 = ve_table(w, ys.reverse());
    sumcheck::lemma_run_extends(t1, log_t, p1.squeeze());
    sumcheck::lemma_run_extends(t2, log_k + log_t, p2.squeeze());
    sumcheck::lemma_run_extends(t3, log_t, p3);
    let end = honest(w, acc, p).2.tape;
    transcript::lemma_prefix_trans(p2.tape, p3.tape, end);
    transcript::lemma_prefix_trans(p.tape, p2.tape, end);
}

/// Whatever an accepted proof holds, its increment claims are recorded at cycle points, and all
/// other claims are left as they were.
pub proof fn lemma_recorded<F: Field>(
    proof: StageClaims<F>,
    log_t: nat,
    log_k: nat,
    acc: Claims<F>,
    s: FsState<F>,
)
    requires
        verdict(proof, log_t, log_k, acc, s).0 is Ok,
    ensures
        ({
            let acc1 = verdict(proof, log_t, log_k, acc, s).1;
            &&& accumulator::recorded(acc1, read_write_checking::inc_id(), log_t)
            &&& accumulator::recorded(acc1, val_evaluation::inc_id(), log_t)
            &&& forall|id: OpeningId|
                !own_ids().contains(id) ==> #[trigger] accumulator::kept(acc, acc1, id)
        }),
{
    let s1 = s.squeeze_n(log_t);
    let acc1 = seeded(acc, s.coins(log_t), proof.seeds);
    let g1 = s1.next();
    let claim1 = claim_reduction::batch(
        g1,
        g1.times(g1),
        proof.seeds[0],
        proof.seeds[1],
        proof.seeds[2],
    );
    let (first, s2) = sumcheck::verify_run(
        claim1,
        log_t,
        claim_reduction::DEGREE as nat,
        s1.squeeze(),
    );
    let g2 = s2.next();
    let claim2 = read_write_checking::batch(g2, proof.cr[0], proof.cr[1], proof.cr[2]);
    let (second, s3) = sumcheck::verify_run(
        claim2,
        log_k + log_t,
        read_write_checking::DEGREE as nat,
        s2.squeeze(),
    );
    sumcheck::lemma_verify_len(
        claim2,
        Seq::empty(),
        log_k + log_t,
        read_write_checking::DEGREE as nat,
        s2.squeeze(),
    );
    sumcheck::lemma_verify_len(
        proof.rw[0],
        Seq::empty(),
        log_t,
        val_evaluation::DEGREE as nat,
        s3,
    );
}

/// The run of the claim reduction: its challenges with the last claim, and the transcript after.
pub open spec fn reduction_run<F: Field>(seeds: Seq<F>, log_t: nat, s: FsState<F>) -> (
    Result<(Seq<F>, F), SumcheckError>,
    FsState<F>,
) {
    let s1 = s.squeeze_n(log_t);
    let g = s1.next();
    sumcheck::verify_run(
        claim_reduction::batch(g, g.times(g), seeds[0], seeds[1], seeds[2]),
        log_t,
        claim_reduction::DEGREE as nat,
        s1.squeeze(),
    )
}

/// The run of the read-write check behind the claim reduction.
pub open spec fn access_run<F: Field>(
    proof: StageClaims<F>,
    log_t: nat,
    log_k: nat,
    s: FsState<F>,
) -> (Result<(Seq<F>, F), SumcheckError>, FsState<F>) {
    let s1 = reduction_run(proof.seeds, log_t, s).1;
    sumcheck::verify_run(
        read_write_checking::batch(s1.next(), proof.cr[0], proof.cr[1], proof.cr[2]),
        log_k + log_t,
        read_write_checking::DEGREE as nat,
        s1.squeeze(),
    )
}

/// The run of the value evaluation behind the read-write check.
pub open spec fn value_run<F: Field>(
    proof: StageClaims<F>,
    log_t: nat,
    log_k: nat,
    s: FsState<F>,
) -> (Result<(Seq<F>, F), SumcheckError>, FsState<F>) {
    sumcheck::verify_run(
        proof.rw[0],
        log_t,
        val_evaluation::DEGREE as nat,
        access_run(proof, log_t, log_k, s).1,
    )
}

/// What the reduced claims say in the check of the claim reduction.
pub open spec fn said_reduced<F: Field>(proof: StageClaims<F>, log_t: nat, s: FsState<F>) -> F {
    let g = s.squeeze_n(log_t).next();
    claim_reduction::batch(g, g.times(g), proof.cr[0], proof.cr[1], proof.cr[2])
}

/// The weight of the reduced claims.
pub open spec fn reduced_weight<F: Field>(seeds: Seq<F>, log_t: nat, s: FsState<F>) -> F {
    poly::eq_mle(reduction_run(seeds, log_t, s).0->Ok_0.0.reverse(), s.coins(log_t))
}

/// What the access openings say in the read-write check.
pub open spec fn said_accesses<F: Field>(proof: StageClaims<F>, log_t: nat, s: FsState<F>) -> F {
    let v = reduced(proof.rw);
    read_write_checking::batch(
        reduction_run(proof.seeds, log_t, s).1.next(),
        v.rd_wa.times(v.inc.plus(v.val)),
        v.rs1_ra.times(v.val),
        v.rs2_ra.times(v.val),
    )
}

/// The weight of the access openings.
pub open spec fn access_weight<F: Field>(
    proof: StageClaims<F>,
    log_t: nat,
    log_k: nat,
    s: FsState<F>,
) -> F {
    poly::eq_mle(
        access_run(proof, log_t, log_k, s).0->Ok_0.0.reverse().skip(log_k as int),
        reduction_run(proof.seeds, log_t, s).0->Ok_0.0.reverse(),
    )
}

/// The weight of the increment and write openings in the value evaluation.
pub open spec fn value_weight<F: Field>(
    proof: StageClaims<F>,
    log_t: nat,
    log_k: nat,
    s: FsState<F>,
) -> F {
    poly::lt_mle(
        value_run(proof, log_t, log_k, s).0->Ok_0.0.reverse(),
        access_run(proof, log_t, log_k, s).0->Ok_0.0.reverse().skip(log_k as int),
    )
}

/// Where one proof is accepted, another whose seeds have another batch is refused.
pub proof fn law_changed_seeds_refused<F: Field>(
    accepted: StageClaims<F>,
    proof: StageClaims<F>,
    log_t: nat,
    log_k: nat,
    acc: Claims<F>,
    s: FsState<F>,
)
    requires
        verdict(accepted, log_t, log_k, acc, s).0 is Ok,
        log_t > 0,
        ({
            let g = s.squeeze_n(log_t).next();
            claim_reduction::batch(g, g.times(g), proof.seeds[0], proof.seeds[1], proof.seeds[2])
                != claim_reduction::batch(
                g,
                g.times(g),
                accepted.seeds[0],
                accepted.seeds[1],
                accepted.seeds[2],
            )
        }),
    ensures
        verdict(proof, log_t, log_k, acc, s).0 == Err::<(), RegistersStageError>(
            RegistersStageError::Sumcheck,
        ),
{
    let s1 = s.squeeze_n(log_t);
    let g = s1.next();
    let h = g.times(g);
    sumcheck::law_changed_claim_refused(
        claim_reduction::batch(g, h, accepted.seeds[0], accepted.seeds[1], accepted.seeds[2]),
        claim_reduction::batch(g, h, proof.seeds[0], proof.seeds[1], proof.seeds[2]),
        log_t,
        claim_reduction::DEGREE as nat,
        s1.squeeze(),
    );
}

/// Where one proof is accepted, another with the same seeds and different reduced claims is refused
/// by the check of the claim reduction, unless their weight cancels the difference.
pub proof fn law_changed_reduced_refused<F: Field>(
    accepted: StageClaims<F>,
    proof: StageClaims<F>,
    log_t: nat,
    log_k: nat,
    acc: Claims<F>,
    s: FsState<F>,
)
    requires
        verdict(accepted, log_t, log_k, acc, s).0 is Ok,
        proof.seeds == accepted.seeds,
        reduced_weight(accepted.seeds, log_t, s).times(
            said_reduced(proof, log_t, s).minus(said_reduced(accepted, log_t, s)),
        ) != F::of_int(0),
    ensures
        verdict(proof, log_t, log_k, acc, s).0 == Err::<(), RegistersStageError>(
            RegistersStageError::ClaimReductionClaim,
        ),
{
    field::lemma_weighted_apart(
        reduced_weight(accepted.seeds, log_t, s),
        said_reduced(accepted, log_t, s),
        said_reduced(proof, log_t, s),
    );
}

/// Where one proof is accepted, another that has the same seeds and reduced claims and different
/// access openings is refused by the read-write check, unless their weight cancels the difference.
pub proof fn law_changed_accesses_refused<F: Field>(
    accepted: StageClaims<F>,
    proof: StageClaims<F>,
    log_t: nat,
    log_k: nat,
    acc: Claims<F>,
    s: FsState<F>,
)
    requires
        verdict(accepted, log_t, log_k, acc, s).0 is Ok,
        proof.seeds == accepted.seeds,
        proof.cr == accepted.cr,
        access_weight(accepted, log_t, log_k, s).times(
            said_accesses(proof, log_t, s).minus(said_accesses(accepted, log_t, s)),
        ) != F::of_int(0),
    ensures
        verdict(proof, log_t, log_k, acc, s).0 == Err::<(), RegistersStageError>(
            RegistersStageError::ReadWriteClaim,
        ),
{
    field::lemma_weighted_apart(
        access_weight(accepted, log_t, log_k, s),
        said_accesses(accepted, log_t, s),
        said_accesses(proof, log_t, s),
    );
}

/// Where one proof is accepted, another that has the same seeds and reduced claims and a different
/// opening of the value is refused: by the read-write check, or as the claim of the value evaluation.
/// With at least one cycle variable this holds whatever the other openings are. With none, the claim
/// is checked against the openings of the value evaluation, which are then the same.
pub proof fn law_changed_value_refused<F: Field>(
    accepted: StageClaims<F>,
    proof: StageClaims<F>,
    log_t: nat,
    log_k: nat,
    acc: Claims<F>,
    s: FsState<F>,
)
    requires
        verdict(accepted, log_t, log_k, acc, s).0 is Ok,
        log_t > 0 || proof.ve == accepted.ve,
        proof.seeds == accepted.seeds,
        proof.cr == accepted.cr,
        proof.rw[0] != accepted.rw[0],
    ensures
        ({
            let r = verdict(proof, log_t, log_k, acc, s).0;
            ||| r == Err::<(), RegistersStageError>(RegistersStageError::ReadWriteClaim)
            ||| r == Err::<(), RegistersStageError>(
                if log_t > 0 {
                    RegistersStageError::Sumcheck
                } else {
                    RegistersStageError::ValEvaluationClaim
                },
            )
        }),
{
    if log_t > 0 {
        sumcheck::law_changed_claim_refused(
            accepted.rw[0],
            proof.rw[0],
            log_t,
            val_evaluation::DEGREE as nat,
            access_run(accepted, log_t, log_k, s).1,
        );
    }
}

/// Where one proof is accepted, another that differs in the openings of the value evaluation alone
/// is refused by its check, unless their weight cancels the difference.
pub proof fn law_changed_writes_refused<F: Field>(
    accepted: StageClaims<F>,
    proof: StageClaims<F>,
    log_t: nat,
    log_k: nat,
    acc: Claims<F>,
    s: FsState<F>,
)
    requires
        verdict(accepted, log_t, log_k, acc, s).0 is Ok,
        proof.seeds == accepted.seeds,
        proof.cr == accepted.cr,
        proof.rw == accepted.rw,
        value_weight(accepted, log_t, log_k, s).times(
            proof.ve[0].times(proof.ve[1]).minus(accepted.ve[0].times(accepted.ve[1])),
        ) != F::of_int(0),
    ensures
        verdict(proof, log_t, log_k, acc, s).0 == Err::<(), RegistersStageError>(
            RegistersStageError::ValEvaluationClaim,
        ),
{
    let w = value_weight(accepted, log_t, log_k, s);
    let a = accepted.ve[0].times(accepted.ve[1]);
    let b = proof.ve[0].times(proof.ve[1]);
    field::lemma_weighted_apart(w, a, b);
    F::law_times_comm(w, a);
    F::law_times_comm(w, b);
}

/// The honest proof with changed access openings is refused by the read-write check, unless their
/// weight cancels the difference.
pub proof fn law_dishonest_accesses_refused<F: Field>(
    rw: Seq<F>,
    w: RegisterWitness<F>,
    trace: Seq<CycleRow>,
    k: nat,
    acc: Claims<F>,
    p: FsState<F>,
    v: FsState<F>,
    whole: Seq<F>,
)
    requires
        w.simulates(trace, k),
        witness::registers_fit(trace, k as int),
        p.canonical(),
        transcript::synced(p, v, whole),
        honest(w, acc, p).2.tape.is_prefix_of(whole),
        ({
            let truth = honest(w, acc, p).0;
            let (log_t, log_k) = (w.log_t as nat, w.log_k as nat);
            access_weight(truth, log_t, log_k, v).times(
                said_accesses(StageClaims { rw, ..truth }, log_t, v).minus(
                    said_accesses(truth, log_t, v),
                ),
            ) != F::of_int(0)
        }),
    ensures
        verdict(
            (StageClaims { rw, ..honest(w, acc, p).0 }),
            w.log_t as nat,
            w.log_k as nat,
            acc,
            v,
        ).0 == Err::<(), RegistersStageError>(RegistersStageError::ReadWriteClaim),
{
    let truth = honest(w, acc, p).0;
    law_complete(w, trace, k, acc, p, v, whole);
    law_changed_accesses_refused(
        truth,
        StageClaims { rw, ..truth },
        w.log_t as nat,
        w.log_k as nat,
        acc,
        v,
    );
}

/// How many elements the rounds of the claim reduction have.
pub open spec fn reduction_read(log_t: nat) -> nat {
    log_t * (claim_reduction::DEGREE as nat + 1)
}

/// How many elements the rounds of the claim reduction and the read-write check have.
pub open spec fn access_read(log_t: nat, log_k: nat) -> nat {
    reduction_read(log_t) + (log_k + log_t) * (read_write_checking::DEGREE as nat + 1)
}

/// How many elements the rounds of all checks have.
pub open spec fn stage_read(log_t: nat, log_k: nat) -> nat {
    access_read(log_t, log_k) + log_t * (val_evaluation::DEGREE as nat + 1)
}

/// A change behind the rounds of the claim reduction.
proof fn lemma_reduction_later<F: Field>(
    seeds: Seq<F>,
    log_t: nat,
    s: FsState<F>,
    j: int,
    delta: F,
)
    requires
        reduction_run(seeds, log_t, s).0 is Ok,
        reduction_read(log_t) <= j < s.tape.len(),
    ensures
        ({
            let (r, s1) = reduction_run(seeds, log_t, s);
            &&& reduction_run(seeds, log_t, sumcheck::changed(s, j, delta)) == (
                r,
                sumcheck::changed(s1, j - reduction_read(log_t), delta),
            )
            &&& s1.tape.len() == s.tape.len() - reduction_read(log_t)
        }),
        sumcheck::changed(s, j, delta).coins(log_t) == s.coins(log_t),
        sumcheck::changed(s, j, delta).squeeze_n(log_t).next() == s.squeeze_n(log_t).next(),
{
    let s1 = s.squeeze_n(log_t);
    let g = s1.next();
    sumcheck::lemma_changed_coins(s, j, delta, log_t);
    transcript::lemma_coins_len(s, log_t);
    assert(sumcheck::changed(s1, j, delta).squeeze() == sumcheck::changed(s1.squeeze(), j, delta));
    sumcheck::lemma_changed_later(
        claim_reduction::batch(g, g.times(g), seeds[0], seeds[1], seeds[2]),
        Seq::empty(),
        log_t,
        claim_reduction::DEGREE as nat,
        s1.squeeze(),
        j,
        delta,
    );
}

/// A change behind the rounds of the read-write check.
proof fn lemma_access_later<F: Field>(
    proof: StageClaims<F>,
    log_t: nat,
    log_k: nat,
    s: FsState<F>,
    j: int,
    delta: F,
)
    requires
        reduction_run(proof.seeds, log_t, s).0 is Ok,
        access_run(proof, log_t, log_k, s).0 is Ok,
        access_read(log_t, log_k) <= j < s.tape.len(),
    ensures
        ({
            let (r, s1) = access_run(proof, log_t, log_k, s);
            &&& access_run(proof, log_t, log_k, sumcheck::changed(s, j, delta)) == (
                r,
                sumcheck::changed(s1, j - access_read(log_t, log_k), delta),
            )
            &&& s1.tape.len() == s.tape.len() - access_read(log_t, log_k)
        }),
{
    lemma_reduction_later(proof.seeds, log_t, s, j, delta);
    let s1 = reduction_run(proof.seeds, log_t, s).1;
    let k = j - reduction_read(log_t);
    assert(sumcheck::changed(s1, k, delta).squeeze() == sumcheck::changed(s1.squeeze(), k, delta));
    sumcheck::lemma_changed_later(
        read_write_checking::batch(s1.next(), proof.cr[0], proof.cr[1], proof.cr[2]),
        Seq::empty(),
        log_k + log_t,
        read_write_checking::DEGREE as nat,
        s1.squeeze(),
        k,
        delta,
    );
}

/// A change behind an accepted proof leaves its verdict as it is.
pub proof fn lemma_changed_later<F: Field>(
    proof: StageClaims<F>,
    log_t: nat,
    log_k: nat,
    acc: Claims<F>,
    s: FsState<F>,
    j: int,
    delta: F,
)
    requires
        verdict(proof, log_t, log_k, acc, s).0 is Ok,
        stage_read(log_t, log_k) <= j < s.tape.len(),
    ensures
        ({
            let (r, acc1, s1) = verdict(proof, log_t, log_k, acc, s);
            &&& verdict(proof, log_t, log_k, acc, sumcheck::changed(s, j, delta)) == (
                r,
                acc1,
                sumcheck::changed(s1, j - stage_read(log_t, log_k), delta),
            )
            &&& s1.tape.len() == s.tape.len() - stage_read(log_t, log_k)
        }),
{
    lemma_reduction_later(proof.seeds, log_t, s, j, delta);
    lemma_access_later(proof, log_t, log_k, s, j, delta);
    sumcheck::lemma_changed_later(
        proof.rw[0],
        Seq::empty(),
        log_t,
        val_evaluation::DEGREE as nat,
        access_run(proof, log_t, log_k, s).1,
        j - access_read(log_t, log_k),
        delta,
    );
}

/// An accepted proof is refused when any one element of its rounds is changed.
pub proof fn law_changed_round_refused<F: Field>(
    proof: StageClaims<F>,
    log_t: nat,
    log_k: nat,
    acc: Claims<F>,
    s: FsState<F>,
    j: int,
    delta: F,
)
    requires
        verdict(proof, log_t, log_k, acc, s).0 is Ok,
        0 <= j < stage_read(log_t, log_k),
        j < s.tape.len(),
        delta.valid(),
        delta != F::of_int(0),
    ensures
        verdict(proof, log_t, log_k, acc, sumcheck::changed(s, j, delta)).0 == Err::<
            (),
            RegistersStageError,
        >(RegistersStageError::Sumcheck),
{
    if j < reduction_read(log_t) {
        let s1 = s.squeeze_n(log_t);
        let g = s1.next();
        sumcheck::lemma_changed_coins(s, j, delta, log_t);
        assert(sumcheck::changed(s1, j, delta).squeeze() == sumcheck::changed(
            s1.squeeze(),
            j,
            delta,
        ));
        sumcheck::law_changed_round_refused(
            claim_reduction::batch(g, g.times(g), proof.seeds[0], proof.seeds[1], proof.seeds[2]),
            Seq::empty(),
            log_t,
            claim_reduction::DEGREE as nat,
            s1.squeeze(),
            j,
            delta,
        );
    } else if j < access_read(log_t, log_k) {
        lemma_reduction_later(proof.seeds, log_t, s, j, delta);
        let s1 = reduction_run(proof.seeds, log_t, s).1;
        let k = j - reduction_read(log_t);
        assert(sumcheck::changed(s1, k, delta).squeeze() == sumcheck::changed(
            s1.squeeze(),
            k,
            delta,
        ));
        sumcheck::law_changed_round_refused(
            read_write_checking::batch(s1.next(), proof.cr[0], proof.cr[1], proof.cr[2]),
            Seq::empty(),
            log_k + log_t,
            read_write_checking::DEGREE as nat,
            s1.squeeze(),
            k,
            delta,
        );
    } else {
        lemma_reduction_later(proof.seeds, log_t, s, j, delta);
        lemma_access_later(proof, log_t, log_k, s, j, delta);
        sumcheck::law_changed_round_refused(
            proof.rw[0],
            Seq::empty(),
            log_t,
            val_evaluation::DEGREE as nat,
            access_run(proof, log_t, log_k, s).1,
            j - access_read(log_t, log_k),
            delta,
        );
    }
}

/// The whole run between fresh parties with one label: the proof of a simulated register file is
/// accepted, and with the opening of the value increased by one it is refused.
pub proof fn law_round_trip<F: Field>(
    w: RegisterWitness<F>,
    trace: Seq<CycleRow>,
    k: nat,
    label: Seq<u8>,
)
    requires
        w.simulates(trace, k),
        witness::registers_fit(trace, k as int),
    ensures
        ({
            let none = Map::<OpeningId, (Seq<F>, F)>::empty();
            let (log_t, log_k) = (w.log_t as nat, w.log_k as nat);
            let (proof, recorded, p) = honest(w, none, transcript::fresh(label, Seq::empty()));
            let v = transcript::fresh(label, p.tape);
            let more = proof.rw.update(0, proof.rw[0].plus(F::of_int(1)));
            let (r, acc, v1) = verdict(proof, log_t, log_k, none, v);
            &&& r is Ok
            &&& acc == recorded
            &&& v1.tape.len() == 0
            &&& verdict((StageClaims { rw: more, ..proof }), log_t, log_k, none, v).0 is Err
        }),
{
    let none = Map::<OpeningId, (Seq<F>, F)>::empty();
    let (log_t, log_k) = (w.log_t as nat, w.log_k as nat);
    let p0 = transcript::fresh::<F>(label, Seq::empty());
    let (proof, recorded, p) = honest(w, none, p0);
    let v = transcript::fresh(label, p.tape);
    transcript::law_fresh(label, p.tape);
    law_complete(w, trace, k, none, p0, v, p.tape);
    field::lemma_increase_moves(proof.rw[0]);
    let more = proof.rw.update(0, proof.rw[0].plus(F::of_int(1)));
    law_changed_value_refused(proof, StageClaims { rw: more, ..proof }, log_t, log_k, none, v);
}

/// Every claim that an honest registers stage leaves under a name is true of the column that the name
/// says: the value is the extension of that column at the recorded point. The values read and written
/// are at cycle points, the marks and the values of the registers at points of all registers.
pub proof fn law_named_claims<F: Field>(
    w: RegisterWitness<F>,
    trace: Seq<CycleRow>,
    k: nat,
    acc: Claims<F>,
    p: FsState<F>,
)
    requires
        w.simulates(trace, k),
        witness::registers_fit(trace, k as int),
        p.canonical(),
    ensures
        ({
            let acc1 = honest(w, acc, p).1;
            let log_t = w.log_t as nat;
            let n = w.log_k as nat + w.log_t as nat;
            let told = |id: OpeningId, column: Seq<F>, vars: nat|
                acc1.contains_key(id) && acc1[id].0.len() == vars && acc1[id].1 == poly::mle(
                    column,
                    acc1[id].0,
                );
            let outer = SumcheckId::SpartanOuter;
            let reduction = SumcheckId::RegistersClaimReduction;
            let checking = SumcheckId::RegistersReadWriteChecking;
            let evaluation = SumcheckId::RegistersValEvaluation;
            &&& told(
                OpeningId::Virtual(VirtualPolynomial::RdWriteValue, outer),
                w.rd_write_value@,
                log_t,
            )
            &&& told(OpeningId::Virtual(VirtualPolynomial::Rs1Value, outer), w.rs1_value@, log_t)
            &&& told(OpeningId::Virtual(VirtualPolynomial::Rs2Value, outer), w.rs2_value@, log_t)
            &&& told(
                OpeningId::Virtual(VirtualPolynomial::RdWriteValue, reduction),
                w.rd_write_value@,
                log_t,
            )
            &&& told(
                OpeningId::Virtual(VirtualPolynomial::Rs1Value, reduction),
                w.rs1_value@,
                log_t,
            )
            &&& told(
                OpeningId::Virtual(VirtualPolynomial::Rs2Value, reduction),
                w.rs2_value@,
                log_t,
            )
            &&& told(OpeningId::Virtual(VirtualPolynomial::RegistersVal, checking), w.val@, n)
            &&& told(OpeningId::Virtual(VirtualPolynomial::Rs1Ra, checking), w.ra1@, n)
            &&& told(OpeningId::Virtual(VirtualPolynomial::Rs2Ra, checking), w.ra2@, n)
            &&& told(OpeningId::Virtual(VirtualPolynomial::RdWa, checking), w.wa@, n)
            &&& told(OpeningId::Committed(CommittedPolynomial::RdInc, checking), w.inc@, log_t)
            &&& told(OpeningId::Committed(CommittedPolynomial::RdInc, evaluation), w.inc@, log_t)
            &&& told(OpeningId::Virtual(VirtualPolynomial::RdWa, evaluation), w.wa@, n)
        }),
{
    let log_t = w.log_t as nat;
    law_openings(w, trace, k, acc, p);
    witness::lemma_witness_valid(w, trace, k);
    transcript::lemma_coins_len(p, log_t);
    let r = p.coins(log_t);
    let p1 = p.squeeze_n(log_t);
    let g = p1.next();
    F::law_valid(g, g);
    let t1 = cr_table(w, r, g);
    claim_reduction::law_table_shaped(
        g,
        g.times(g),
        r,
        w.rd_write_value@,
        w.rs1_value@,
        w.rs2_value@,
    );
    let (xs, p2) = sumcheck::prove_run(t1, log_t, p1.squeeze());
    sumcheck::lemma_run_extends(t1, log_t, p1.squeeze());
    sumcheck::lemma_bound_columns(t1, xs);
    let row = sumcheck::final_row(t1.columns, xs);
    assert(row[1] == poly::mle(w.rd_write_value@, xs.reverse()));
    assert(row[2] == poly::mle(w.rs1_value@, xs.reverse()));
    assert(row[3] == poly::mle(w.rs2_value@, xs.reverse()));
}

} // verus!
