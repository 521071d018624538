//! The memory stage: the RAM stage, the registers stage, and two claim reductions, on one
//! transcript.
//!
//! The three access claims of the RAM stage share one address point and are reduced to one claim.
//! The four increment claims of the two stages are reduced to one claim about each increment column.

use crate::field;
use crate::field::Field;
use crate::framework::accumulator;
use crate::framework::accumulator::{
    Claims, CommittedPolynomial, OpeningId, Openings, SumcheckId, VirtualPolynomial,
};
use crate::framework::poly;
use crate::framework::sumcheck;
use crate::framework::sumcheck::{SumTable, SumcheckClaim, SumcheckError};
use crate::framework::sums;
use crate::framework::transcript;
use crate::framework::transcript::{FsState, ProverFs, VerifierFs};
use crate::zkvm::access;
use crate::zkvm::claim_reductions::increments;
use crate::zkvm::claim_reductions::increments::{IncClaimReduction, IncClaimReductionParams};
use crate::zkvm::claim_reductions::ram_ra;
use crate::zkvm::claim_reductions::ram_ra::{RamRaClaimReduction, RamRaReductionParams};
use crate::zkvm::ram::stage as ram_stage;
use crate::zkvm::ram::stage::{prove_ram, verify_ram, PublicColumns, RamStageError, RamStageProof};
use crate::zkvm::ram::witness as ram_witness;
use crate::zkvm::ram::witness::RamWitness;
use crate::zkvm::registers::stage as registers_stage;
use crate::zkvm::registers::stage::{
    prove_registers, verify_registers, RegistersStageError, RegistersStageProof,
};
use crate::zkvm::registers::witness as registers_witness;
use crate::zkvm::registers::witness::RegisterWitness;
use crate::zkvm::trace::CycleRow;
use vstd::arithmetic::power2::pow2;
use vstd::prelude::*;

verus! {

/// Why a memory proof is rejected.
#[derive(Clone, Copy, Debug, PartialEq, Eq, Structural)]
pub enum MemoryStageError {
    Ram(RamStageError),
    Registers(RegistersStageError),
    Sumcheck,
    RamRaClaim,
    IncClaim,
}

/// The claims the prover hands to the verifier.
#[derive(Debug)]
pub struct MemoryStageProof<F> {
    pub ram: RamStageProof<F>,
    pub registers: RegistersStageProof<F>,
    /// The reduced access claim.
    pub ram_ra_opening: F,
    /// The reduced claims about the memory and the register increments.
    pub inc_openings: [F; 2],
}

/// The claims of a memory proof.
#[verifier::ext_equal]
#[verifier::reject_recursive_types(F)]
pub struct StageClaims<F> {
    pub ram: ram_stage::StageClaims<F>,
    pub registers: registers_stage::StageClaims<F>,
    pub ram_ra: F,
    pub inc: Seq<F>,
}

impl<F: Field> View for MemoryStageProof<F> {
    type V = StageClaims<F>;

    open spec fn view(&self) -> StageClaims<F> {
        StageClaims {
            ram: self.ram@,
            registers: self.registers@,
            ram_ra: self.ram_ra_opening,
            inc: self.inc_openings@,
        }
    }
}

/// The cycle points of the three access claims.
pub open spec fn ra_points<F: Field>(acc: Claims<F>, log_k: int) -> ram_ra::Points<F> {
    ram_ra::Points {
        raf: acc[ram_ra::raf_id()].0.skip(log_k),
        rw: acc[ram_ra::rw_id()].0.skip(log_k),
        val: acc[ram_ra::val_id()].0.skip(log_k),
    }
}

/// The address point of the access claims.
pub open spec fn ra_address<F: Field>(acc: Claims<F>, log_k: int) -> Seq<F> {
    acc[ram_ra::raf_id()].0.take(log_k)
}

/// The batch of the three access claims.
pub open spec fn ra_claim<F: Field>(acc: Claims<F>, g: F) -> F {
    ram_ra::batch(
        g,
        g.times(g),
        acc[ram_ra::raf_id()].1,
        acc[ram_ra::rw_id()].1,
        acc[ram_ra::val_id()].1,
    )
}

/// The cycle points of the four increment claims.
pub open spec fn inc_points<F: Field>(acc: Claims<F>) -> increments::Points<F> {
    increments::Points {
        r2: acc[increments::ram_stage2()].0,
        r4: acc[increments::ram_stage4()].0,
        s4: acc[increments::rd_stage4()].0,
        s5: acc[increments::rd_stage5()].0,
    }
}

/// The table of the access reduction.
pub open spec fn ra_table<F: Field>(ram: RamWitness<F>, acc: Claims<F>, g: F) -> SumTable<F> {
    ram_ra::table(
        g,
        g.times(g),
        ra_points(acc, ram.log_k as int),
        access::at_address(
            ram.ra@,
            ra_address(acc, ram.log_k as int),
            pow2(ram.log_t as nat),
        ),
    )
}

/// The table of the increment reduction.
pub open spec fn inc_table<F: Field>(
    ram: RamWitness<F>,
    reg: RegisterWitness<F>,
    acc: Claims<F>,
    g: F,
) -> SumTable<F> {
    increments::table(g, inc_points(acc), ram.inc@, reg.inc@)
}

/// The claims, the records and the transcript of an honest memory stage.
pub open spec fn honest<F: Field>(
    ram: RamWitness<F>,
    reg: RegisterWitness<F>,
    public: PublicColumns<F>,
    acc: Claims<F>,
    s: FsState<F>,
) -> (StageClaims<F>, Claims<F>, FsState<F>) {
    let log_t = ram.log_t as nat;
    let log_k = ram.log_k as int;
    let (c1, acc1, s1) = ram_stage::honest(ram, public, acc, s);
    let (c2, acc2, s2) = registers_stage::honest(reg, acc1, s1);
    let t3 = ra_table(ram, acc2, s2.next());
    let (xs, s3) = sumcheck::prove_run(t3, log_t, s2.squeeze());
    let row3 = sumcheck::bound_row(t3.columns, xs);
    let acc3 = ram_ra::cached(acc2, ra_address(acc2, log_k), xs, row3[0]);
    let t4 = inc_table(ram, reg, acc3, s3.next());
    let (ys, s4) = sumcheck::prove_run(t4, log_t, s3.squeeze());
    let row4 = sumcheck::bound_row(t4.columns, ys);
    let acc4 = increments::cached(acc3, ys, row4[0], row4[1]);
    (
        StageClaims { ram: c1, registers: c2, ram_ra: row3[0], inc: seq![row4[0], row4[1]] },
        acc4,
        s4,
    )
}

/// The two reductions find their claims at points of the announced sizes.
pub open spec fn reducible<F: Field>(acc: Claims<F>, log_t: nat, log_k: nat) -> bool {
    &&& accumulator::recorded(acc, ram_ra::raf_id(), log_k + log_t)
    &&& accumulator::recorded(acc, ram_ra::rw_id(), log_k + log_t)
    &&& accumulator::recorded(acc, ram_ra::val_id(), log_k + log_t)
    &&& accumulator::recorded(acc, increments::ram_stage2(), log_t)
    &&& accumulator::recorded(acc, increments::ram_stage4(), log_t)
    &&& accumulator::recorded(acc, increments::rd_stage4(), log_t)
    &&& accumulator::recorded(acc, increments::rd_stage5(), log_t)
}

/// The registers stage keeps the claims of the RAM stage.
proof fn lemma_ram_kept<F: Field>(before: Claims<F>, after: Claims<F>)
    requires
        forall|id: accumulator::OpeningId|
            !registers_stage::own_ids().contains(id) ==> #[trigger] accumulator::kept(
                before,
                after,
                id,
            ),
    ensures
        accumulator::kept(before, after, ram_ra::raf_id()),
        accumulator::kept(before, after, ram_ra::rw_id()),
        accumulator::kept(before, after, ram_ra::val_id()),
        accumulator::kept(before, after, increments::ram_stage2()),
        accumulator::kept(before, after, increments::ram_stage4()),
{
    assert(!registers_stage::own_ids().contains(ram_ra::raf_id()));
    assert(!registers_stage::own_ids().contains(ram_ra::rw_id()));
    assert(!registers_stage::own_ids().contains(ram_ra::val_id()));
    assert(!registers_stage::own_ids().contains(increments::ram_stage2()));
    assert(!registers_stage::own_ids().contains(increments::ram_stage4()));
}

/// Prove the memory stage.
pub fn prove_memory<F: Field, T: ProverFs<F>>(
    ram_w: &RamWitness<F>,
    reg_w: &RegisterWitness<F>,
    unmap: &[F],
    val_io: &[F],
    io_mask: &[F],
    accumulator: &mut Openings<F>,
    transcript: &mut T,
) -> (proof: MemoryStageProof<F>)
    requires
        ram_w.sized(),
        reg_w.sized(),
        ram_w.log_t == reg_w.log_t,
        ram_w.log_k + ram_w.log_t <= usize::MAX,
        reg_w.log_k + reg_w.log_t <= usize::MAX,
        (PublicColumns { unmap: unmap@, val_io: val_io@, io_mask: io_mask@ }).sized(
            ram_w.log_k as nat,
        ),
    ensures
        (proof@, final(accumulator)@, final(transcript).state()) == honest(
            *ram_w,
            *reg_w,
            (PublicColumns { unmap: unmap@, val_io: val_io@, io_mask: io_mask@ }),
            old(accumulator)@,
            old(transcript).state(),
        ),
{
    let ghost public = PublicColumns { unmap: unmap@, val_io: val_io@, io_mask: io_mask@ };
    let ghost acc0 = accumulator@;
    let ghost s0 = transcript.state();
    let ghost log_t = ram_w.log_t as nat;
    let ghost log_k = ram_w.log_k as nat;
    let cycles: usize = ram_w.inc.len();
    let words: usize = unmap.len();
    proof {
        poly::lemma_pow2_concat(log_k, log_t);
    }
    let ram: RamStageProof<F> = prove_ram(ram_w, unmap, val_io, io_mask, accumulator, transcript);
    let ghost acc1 = accumulator@;
    let ghost s1 = transcript.state();
    let registers: RegistersStageProof<F> = prove_registers(reg_w, accumulator, transcript);
    let ghost acc2 = accumulator@;
    proof {
        ram_stage::lemma_honest_recorded(*ram_w, public, acc0, s0);
        registers_stage::lemma_honest_recorded(*reg_w, acc1, s1);
        registers_stage::lemma_honest_keeps(*reg_w, acc1, s1);
        lemma_ram_kept(acc1, acc2);
        assert(reducible(acc2, log_t, log_k));
    }

    // Reduce the three access claims to one.
    let ra_params: RamRaReductionParams<F> = RamRaReductionParams::new(
        ram_w.log_t,
        ram_w.log_k,
        accumulator,
        transcript,
    );
    let ra_col: Vec<F> = access::matrix_at_address(&ram_w.ra, &ra_params.r_address, cycles);
    let mut ramra: RamRaClaimReduction<F> = RamRaClaimReduction::new_prover(ra_params, ra_col);
    let ghost t3 = ramra.sum@;
    proof {
        ram_ra::law_table_shaped(
            ra_params.gamma,
            ra_params.gamma_squared,
            ra_params.points(),
            ra_col@,
            log_t,
        );
    }
    let xs: Vec<F> = sumcheck::prove(&mut ramra.sum, ram_w.log_t, transcript);
    proof {
        sumcheck::lemma_opened(t3, xs@, ramra.sum@);
    }
    ramra.cache_openings(accumulator, &xs);
    let ram_ra_opening: F = accumulator.virtual_claim(
        VirtualPolynomial::RamRa,
        SumcheckId::RamRaClaimReduction,
    );

    // Reduce the four increment claims to two.
    let inc_params: IncClaimReductionParams<F> = IncClaimReductionParams::new(
        ram_w.log_t,
        accumulator,
        transcript,
    );
    let mut inc: IncClaimReduction<F> = IncClaimReduction::new_prover(
        inc_params,
        poly::copied(&ram_w.inc),
        poly::copied(&reg_w.inc),
    );
    let ghost t4 = inc.sum@;
    proof {
        increments::law_table_shaped(
            inc_params.gamma(),
            inc_params.points(),
            ram_w.inc@,
            reg_w.inc@,
            log_t,
        );
    }
    let ys: Vec<F> = sumcheck::prove(&mut inc.sum, ram_w.log_t, transcript);
    proof {
        sumcheck::lemma_opened(t4, ys@, inc.sum@);
    }
    inc.cache_openings(accumulator, &ys);
    let id: SumcheckId = SumcheckId::IncClaimReduction;
    let inc_openings: [F; 2] = [
        accumulator.committed_claim(CommittedPolynomial::RamInc, id),
        accumulator.committed_claim(CommittedPolynomial::RdInc, id),
    ];
    let proof_out: MemoryStageProof<F> = MemoryStageProof {
        ram,
        registers,
        ram_ra_opening,
        inc_openings,
    };
    assert(proof_out@ =~= honest(*ram_w, *reg_w, public, acc0, s0).0);
    proof_out
}

/// The verdict on a memory proof, the recorded claims, and the transcript after it.
pub open spec fn verdict<F: Field>(
    proof: StageClaims<F>,
    log_t: nat,
    ram_log_k: nat,
    reg_log_k: nat,
    public: PublicColumns<F>,
    acc: Claims<F>,
    s: FsState<F>,
) -> (Result<(), MemoryStageError>, Claims<F>, FsState<F>) {
    let (r1, acc1, s1) = ram_stage::verdict(proof.ram, log_t, ram_log_k, public, acc, s);
    match r1 {
        Err(e) => (Err(MemoryStageError::Ram(e)), acc1, s1),
        Ok(_) => {
            let (r2, acc2, s2) = registers_stage::verdict(
                proof.registers,
                log_t,
                reg_log_k,
                acc1,
                s1,
            );
            match r2 {
                Err(e) => (Err(MemoryStageError::Registers(e)), acc2, s2),
                Ok(_) => verdict_ra(proof, log_t, ram_log_k, acc2, s2),
            }
        },
    }
}

/// The verdict from the access reduction on.
pub open spec fn verdict_ra<F: Field>(
    proof: StageClaims<F>,
    log_t: nat,
    ram_log_k: nat,
    acc: Claims<F>,
    s: FsState<F>,
) -> (Result<(), MemoryStageError>, Claims<F>, FsState<F>) {
    let g = s.next();
    let (r, s1) = sumcheck::verify_run(
        ra_claim(acc, g),
        log_t,
        ram_ra::DEGREE as nat,
        s.squeeze(),
    );
    match r {
        Err(_) => (Err(MemoryStageError::Sumcheck), acc, s1),
        Ok((xs, value)) => {
            let acc1 = ram_ra::cached(acc, ra_address(acc, ram_log_k as int), xs, proof.ram_ra);
            if value != ram_ra::output(
                g,
                g.times(g),
                ra_points(acc, ram_log_k as int),
                acc1,
                xs,
            ) {
                (Err(MemoryStageError::RamRaClaim), acc1, s1)
            } else {
                verdict_inc(proof, log_t, acc1, s1)
            }
        },
    }
}

/// The verdict from the increment reduction on.
pub open spec fn verdict_inc<F: Field>(
    proof: StageClaims<F>,
    log_t: nat,
    acc: Claims<F>,
    s: FsState<F>,
) -> (Result<(), MemoryStageError>, Claims<F>, FsState<F>) {
    let g = s.next();
    let (r, s1) = sumcheck::verify_run(
        increments::input(g, acc),
        log_t,
        increments::DEGREE as nat,
        s.squeeze(),
    );
    match r {
        Err(_) => (Err(MemoryStageError::Sumcheck), acc, s1),
        Ok((ys, value)) => {
            let acc1 = increments::cached(acc, ys, proof.inc[0], proof.inc[1]);
            if value != increments::output(g, inc_points(acc), acc1, ys) {
                (Err(MemoryStageError::IncClaim), acc1, s1)
            } else {
                (Ok(()), acc1, s1)
            }
        },
    }
}

/// Verify the memory stage.
pub fn verify_memory<F: Field, T: VerifierFs<F>>(
    proof: &MemoryStageProof<F>,
    log_t: usize,
    ram_log_k: usize,
    reg_log_k: usize,
    unmap: &[F],
    val_io: &[F],
    io_mask: &[F],
    accumulator: &mut Openings<F>,
    transcript: &mut T,
) -> (r: Result<(), MemoryStageError>)
    requires
        ram_log_k + log_t <= usize::MAX,
        reg_log_k + log_t <= usize::MAX,
        (PublicColumns { unmap: unmap@, val_io: val_io@, io_mask: io_mask@ }).sized(
            ram_log_k as nat,
        ),
    ensures
        (r, final(accumulator)@, final(transcript).state()) == verdict(
            proof@,
            log_t as nat,
            ram_log_k as nat,
            reg_log_k as nat,
            (PublicColumns { unmap: unmap@, val_io: val_io@, io_mask: io_mask@ }),
            old(accumulator)@,
            old(transcript).state(),
        ),
{
    let ghost public = PublicColumns { unmap: unmap@, val_io: val_io@, io_mask: io_mask@ };
    let ghost acc0 = accumulator@;
    let ghost s0 = transcript.state();
    match verify_ram(
        &proof.ram,
        log_t,
        ram_log_k,
        unmap,
        val_io,
        io_mask,
        accumulator,
        transcript,
    ) {
        Err(e) => {
            return Err(MemoryStageError::Ram(e));
        },
        Ok(_) => {},
    }
    let ghost acc1 = accumulator@;
    let ghost s1 = transcript.state();
    match verify_registers(&proof.registers, log_t, reg_log_k, accumulator, transcript) {
        Err(e) => {
            return Err(MemoryStageError::Registers(e));
        },
        Ok(_) => {},
    }
    let ghost acc2 = accumulator@;
    proof {
        ram_stage::lemma_recorded(proof@.ram, log_t as nat, ram_log_k as nat, public, acc0, s0);
        registers_stage::lemma_recorded(
            proof@.registers,
            log_t as nat,
            reg_log_k as nat,
            acc1,
            s1,
        );
        lemma_ram_kept(acc1, acc2);
        assert(reducible(acc2, log_t as nat, ram_log_k as nat));
    }

    let ra_params: RamRaReductionParams<F> = RamRaReductionParams::new(
        log_t,
        ram_log_k,
        accumulator,
        transcript,
    );
    let ramra: RamRaClaimReduction<F> = RamRaClaimReduction::new_verifier(ra_params);
    let ra_claim: SumcheckClaim<F> = SumcheckClaim {
        num_vars: log_t,
        degree: ram_ra::DEGREE,
        claimed_sum: ramra.params.input_claim(),
    };
    let ra_eval = match sumcheck::verify(&ra_claim, transcript) {
        Err(_) => {
            return Err(MemoryStageError::Sumcheck);
        },
        Ok(e) => e,
    };
    accumulator.append_virtual(
        VirtualPolynomial::RamRa,
        SumcheckId::RamRaClaimReduction,
        ramra.params.opening_point(&ra_eval.point),
        proof.ram_ra_opening,
    );
    let ra_expected: F = ramra.expected_output_claim(accumulator, &ra_eval.point);
    if !ra_eval.value.same(ra_expected) {
        return Err(MemoryStageError::RamRaClaim);
    }

    let inc_params: IncClaimReductionParams<F> = IncClaimReductionParams::new(
        log_t,
        accumulator,
        transcript,
    );
    let inc: IncClaimReduction<F> = IncClaimReduction::new_verifier(inc_params);
    let inc_claim: SumcheckClaim<F> = SumcheckClaim {
        num_vars: log_t,
        degree: increments::DEGREE,
        claimed_sum: inc.params.input_claim(accumulator),
    };
    let inc_eval = match sumcheck::verify(&inc_claim, transcript) {
        Err(_) => {
            return Err(MemoryStageError::Sumcheck);
        },
        Ok(e) => e,
    };
    let id: SumcheckId = SumcheckId::IncClaimReduction;
    accumulator.append_dense(
        CommittedPolynomial::RamInc,
        id,
        poly::reversed(&inc_eval.point),
        proof.inc_openings[0],
    );
    accumulator.append_dense(
        CommittedPolynomial::RdInc,
        id,
        poly::reversed(&inc_eval.point),
        proof.inc_openings[1],
    );
    let inc_expected: F = inc.expected_output_claim(accumulator, &inc_eval.point);
    if !inc_eval.value.same(inc_expected) {
        return Err(MemoryStageError::IncClaim);
    }
    Ok(())
}

/// The honest stage only appends to the tape.
pub proof fn lemma_honest_extends<F: Field>(
    ram: RamWitness<F>,
    reg: RegisterWitness<F>,
    public: PublicColumns<F>,
    acc: Claims<F>,
    p: FsState<F>,
)
    ensures
        p.tape.is_prefix_of(honest(ram, reg, public, acc, p).2.tape),
        honest(ram, reg, public, acc, p).2.coin == p.coin,
{
    let log_t = ram.log_t as nat;
    let (c1, acc1, p1) = ram_stage::honest(ram, public, acc, p);
    let (c2, acc2, p2) = registers_stage::honest(reg, acc1, p1);
    let t3 = ra_table(ram, acc2, p2.next());
    let (xs, p3) = sumcheck::prove_run(t3, log_t, p2.squeeze());
    let row3 = sumcheck::bound_row(t3.columns, xs);
    let acc3 = ram_ra::cached(acc2, ra_address(acc2, ram.log_k as int), xs, row3[0]);
    let t4 = inc_table(ram, reg, acc3, p3.next());
    let end = honest(ram, reg, public, acc, p).2.tape;
    ram_stage::lemma_honest_extends(ram, public, acc, p);
    registers_stage::lemma_honest_extends(reg, acc1, p1);
    sumcheck::lemma_run_extends(t3, log_t, p2.squeeze());
    sumcheck::lemma_run_extends(t4, log_t, p3.squeeze());
    transcript::lemma_prefix_trans(p2.tape, p3.tape, end);
    transcript::lemma_prefix_trans(p1.tape, p2.tape, end);
    transcript::lemma_prefix_trans(p.tape, p1.tape, end);
}

/// Completeness: the honest proof of a simulated memory and register file with the true output is
/// accepted, both parties record the same claims, and they stay synchronised.
#[verifier::rlimit(40)]
pub proof fn law_complete<F: Field>(
    ram: RamWitness<F>,
    reg: RegisterWitness<F>,
    trace: Seq<CycleRow>,
    remapped: Seq<CycleRow>,
    ram_k: nat,
    reg_k: nat,
    public: PublicColumns<F>,
    acc: Claims<F>,
    p: FsState<F>,
    v: FsState<F>,
    whole: Seq<F>,
)
    requires
        ram.simulates(remapped, ram_k),
        ram_witness::addresses_fit(remapped, ram_k as int),
        reg.simulates(trace, reg_k),
        registers_witness::registers_fit(trace, reg_k as int),
        ram.log_t == reg.log_t,
        public.sized(ram.log_k as nat),
        public.canonical(),
        ram_stage::output_holds(ram, public),
        p.canonical(),
        transcript::synced(p, v, whole),
        honest(ram, reg, public, acc, p).2.tape.is_prefix_of(whole),
    ensures
        ({
            let (claims, acc1, p1) = honest(ram, reg, public, acc, p);
            let (r, acc2, v1) = verdict(
                claims,
                ram.log_t as nat,
                ram.log_k as nat,
                reg.log_k as nat,
                public,
                acc,
                v,
            );
            &&& r is Ok
            &&& acc2 == acc1
            &&& transcript::synced(p1, v1, whole)
            &&& p1.canonical()
            &&& p.tape.is_prefix_of(p1.tape)
        }),
{
    let log_t = ram.log_t as nat;
    let log_k = ram.log_k as nat;
    let later = honest(ram, reg, public, acc, p).2.tape;
    poly::lemma_pow2_concat(log_k, log_t);
    ram_witness::lemma_witness_valid(ram, remapped, ram_k);
    registers_witness::lemma_witness_valid(reg, trace, reg_k);
    let (c1, acc1, p1) = ram_stage::honest(ram, public, acc, p);
    let (c2, acc2, p2) = registers_stage::honest(reg, acc1, p1);
    let g3 = p2.next();
    let t3 = ra_table(ram, acc2, g3);
    let (xs, p3) = sumcheck::prove_run(t3, log_t, p2.squeeze());
    let row3 = sumcheck::bound_row(t3.columns, xs);
    let address = ra_address(acc2, log_k as int);
    let acc3 = ram_ra::cached(acc2, address, xs, row3[0]);
    let g4 = p3.next();
    let t4 = inc_table(ram, reg, acc3, g4);
    let (ys, p4) = sumcheck::prove_run(t4, log_t, p3.squeeze());
    // every step only appends to the tape
    sumcheck::lemma_run_extends(t3, log_t, p2.squeeze());
    sumcheck::lemma_run_extends(t4, log_t, p3.squeeze());
    transcript::lemma_prefix_trans(p2.tape, p3.tape, later);
    registers_stage::lemma_honest_extends(reg, acc1, p1);
    transcript::lemma_prefix_trans(p1.tape, p2.tape, later);
    transcript::lemma_prefix_trans(p1.tape, later, whole);
    transcript::lemma_prefix_trans(p2.tape, later, whole);
    // the two stages
    ram_stage::law_complete(ram, remapped, ram_k, public, acc, p, v, whole);
    ram_stage::law_openings(ram, remapped, ram_k, public, acc, p);
    let v1 = ram_stage::verdict(c1, log_t, log_k, public, acc, v).2;
    registers_stage::law_complete(reg, trace, reg_k, acc1, p1, v1, whole);
    registers_stage::law_openings(reg, trace, reg_k, acc1, p1);
    registers_stage::lemma_honest_keeps(reg, acc1, p1);
    lemma_ram_kept(acc1, acc2);
    let v2 = registers_stage::verdict(c2, log_t, reg.log_k as nat, acc1, v1).2;
    transcript::lemma_prefix_trans(p.tape, p1.tape, later);
    // the access reduction
    transcript::lemma_synced_squeeze(p2, v2, whole);
    F::law_valid(g3, g3);
    let pts = ra_points(acc2, log_k as int);
    let ra_col = access::at_address(ram.ra@, address, pow2(log_t));
    assert(field::all_valid(ra_col)) by {
        assert forall|j: int| 0 <= j < ra_col.len() implies (#[trigger] ra_col[j]).valid() by {
            sums::lemma_sum_valid(
                pow2(address.len()) as int,
                |k: int| poly::eq_weight(address, k).times(ram.ra@[k * pow2(log_t) + j]),
            );
        }
    }
    ram_ra::law_table_shaped(g3, g3.times(g3), pts, ra_col, log_t);
    ram_ra::law_total(g3, g3.times(g3), pts, ra_col, log_t);
    access::lemma_at_address(ram.ra@, address, pts.raf);
    access::lemma_at_address(ram.ra@, address, pts.rw);
    access::lemma_at_address(ram.ra@, address, pts.val);
    assert(acc2[ram_ra::raf_id()].0 =~= address + pts.raf);
    assert(acc2[ram_ra::rw_id()].0 =~= address + pts.rw) by {
        assert(acc2[ram_ra::rw_id()].0.take(log_k as int) == address);
    }
    assert(acc2[ram_ra::val_id()].0 =~= address + pts.val) by {
        assert(acc2[ram_ra::val_id()].0.take(log_k as int) == address);
    }
    assert(t3.total() == ra_claim(acc2, g3));
    sumcheck::lemma_step_complete(t3, log_t, p2.squeeze(), v2.squeeze(), whole, later);
    ram_ra::law_output(g3, g3.times(g3), pts, ra_col, acc2, address, xs);
    let v3 = sumcheck::verify_run(
        t3.total(),
        log_t,
        ram_ra::DEGREE as nat,
        v2.squeeze(),
    ).1;
    // the increment reduction
    transcript::lemma_synced_squeeze(p3, v3, whole);
    let ipts = inc_points(acc3);
    increments::law_table_shaped(g4, ipts, ram.inc@, reg.inc@, log_t);
    increments::law_total(g4, ipts, ram.inc@, reg.inc@, log_t);
    assert(t4.total() == increments::input(g4, acc3));
    sumcheck::lemma_step_complete(t4, log_t, p3.squeeze(), v3.squeeze(), whole, later);
    increments::law_output(g4, ipts, ram.inc@, reg.inc@, acc3, ys);
}

/// The claims and the transcript behind the RAM and registers stages.
pub open spec fn after_registers<F: Field>(
    proof: StageClaims<F>,
    log_t: nat,
    ram_log_k: nat,
    reg_log_k: nat,
    public: PublicColumns<F>,
    acc: Claims<F>,
    s: FsState<F>,
) -> (Claims<F>, FsState<F>) {
    let (r1, acc1, s1) = ram_stage::verdict(proof.ram, log_t, ram_log_k, public, acc, s);
    let (r2, acc2, s2) = registers_stage::verdict(proof.registers, log_t, reg_log_k, acc1, s1);
    (acc2, s2)
}

/// The run of the access reduction.
pub open spec fn access_run<F: Field>(acc: Claims<F>, log_t: nat, s: FsState<F>) -> (
    Result<(Seq<F>, F), SumcheckError>,
    FsState<F>,
) {
    sumcheck::verify_run(ra_claim(acc, s.next()), log_t, ram_ra::DEGREE as nat, s.squeeze())
}

/// The weight of the reduced access opening.
pub open spec fn access_weight<F: Field>(
    acc: Claims<F>,
    log_t: nat,
    ram_log_k: nat,
    s: FsState<F>,
) -> F {
    let y = access_run(acc, log_t, s).0->Ok_0.0.reverse();
    let p = ra_points(acc, ram_log_k as int);
    let g = s.next();
    ram_ra::batch(
        g,
        g.times(g),
        poly::eq_mle(p.raf, y),
        poly::eq_mle(p.rw, y),
        poly::eq_mle(p.val, y),
    )
}

/// The point of the increment reduction.
pub open spec fn inc_point<F: Field>(acc: Claims<F>, log_t: nat, s: FsState<F>) -> Seq<F> {
    sumcheck::verify_run(
        increments::input(s.next(), acc),
        log_t,
        increments::DEGREE as nat,
        s.squeeze(),
    ).0->Ok_0.0.reverse()
}

/// The weight of the reduced RAM increment.
pub open spec fn ram_inc_weight<F: Field>(acc: Claims<F>, log_t: nat, s: FsState<F>) -> F {
    let y = inc_point(acc, log_t, s);
    let p = inc_points(acc);
    poly::eq_mle(y, p.r2).plus(s.next().times(poly::eq_mle(y, p.r4)))
}

/// The weight of the reduced register increment.
pub open spec fn rd_inc_weight<F: Field>(acc: Claims<F>, log_t: nat, s: FsState<F>) -> F {
    let y = inc_point(acc, log_t, s);
    let p = inc_points(acc);
    let g = s.next();
    g.times(g).times(poly::eq_mle(y, p.s4).plus(g.times(poly::eq_mle(y, p.s5))))
}

/// An error of the RAM stage is the error of the memory stage.
pub proof fn law_ram_error_carried<F: Field>(
    proof: StageClaims<F>,
    log_t: nat,
    ram_log_k: nat,
    reg_log_k: nat,
    public: PublicColumns<F>,
    acc: Claims<F>,
    s: FsState<F>,
    e: RamStageError,
)
    requires
        ram_stage::verdict(proof.ram, log_t, ram_log_k, public, acc, s).0 == Err::<
            (),
            RamStageError,
        >(e),
    ensures
        verdict(proof, log_t, ram_log_k, reg_log_k, public, acc, s).0 == Err::<
            (),
            MemoryStageError,
        >(MemoryStageError::Ram(e)),
{
}

/// Behind an accepted RAM stage an error of the registers stage is the error of the memory stage.
pub proof fn law_registers_error_carried<F: Field>(
    proof: StageClaims<F>,
    log_t: nat,
    ram_log_k: nat,
    reg_log_k: nat,
    public: PublicColumns<F>,
    acc: Claims<F>,
    s: FsState<F>,
    e: RegistersStageError,
)
    requires
        ram_stage::verdict(proof.ram, log_t, ram_log_k, public, acc, s).0 is Ok,
        ({
            let (r, acc1, s1) = ram_stage::verdict(proof.ram, log_t, ram_log_k, public, acc, s);
            registers_stage::verdict(proof.registers, log_t, reg_log_k, acc1, s1).0 == Err::<
                (),
                RegistersStageError,
            >(e)
        }),
    ensures
        verdict(proof, log_t, ram_log_k, reg_log_k, public, acc, s).0 == Err::<
            (),
            MemoryStageError,
        >(MemoryStageError::Registers(e)),
{
}

/// Where one proof is accepted, another with the same RAM and registers proofs and a different
/// reduced access opening is refused by the access check, unless its weight cancels the difference.
pub proof fn law_changed_access_refused<F: Field>(
    accepted: StageClaims<F>,
    proof: StageClaims<F>,
    log_t: nat,
    ram_log_k: nat,
    reg_log_k: nat,
    public: PublicColumns<F>,
    acc: Claims<F>,
    s: FsState<F>,
)
    requires
        verdict(accepted, log_t, ram_log_k, reg_log_k, public, acc, s).0 is Ok,
        proof.ram == accepted.ram,
        proof.registers == accepted.registers,
        ({
            let (acc2, s2) = after_registers(
                accepted,
                log_t,
                ram_log_k,
                reg_log_k,
                public,
                acc,
                s,
            );
            access_weight(acc2, log_t, ram_log_k, s2).times(proof.ram_ra.minus(accepted.ram_ra))
                != F::of_int(0)
        }),
    ensures
        verdict(proof, log_t, ram_log_k, reg_log_k, public, acc, s).0 == Err::<
            (),
            MemoryStageError,
        >(MemoryStageError::RamRaClaim),
{
    let (acc2, s2) = after_registers(accepted, log_t, ram_log_k, reg_log_k, public, acc, s);
    field::lemma_weighted_apart(
        access_weight(acc2, log_t, ram_log_k, s2),
        accepted.ram_ra,
        proof.ram_ra,
    );
}

/// Where one proof is accepted, another that differs in one of the two reduced increments alone is
/// refused by the increment check, unless the weight of that increment cancels the difference.
pub proof fn law_changed_increment_refused<F: Field>(
    accepted: StageClaims<F>,
    proof: StageClaims<F>,
    log_t: nat,
    ram_log_k: nat,
    reg_log_k: nat,
    public: PublicColumns<F>,
    acc: Claims<F>,
    s: FsState<F>,
)
    requires
        verdict(accepted, log_t, ram_log_k, reg_log_k, public, acc, s).0 is Ok,
        proof.ram == accepted.ram,
        proof.registers == accepted.registers,
        proof.ram_ra == accepted.ram_ra,
        ({
            let (acc2, s2) = after_registers(
                accepted,
                log_t,
                ram_log_k,
                reg_log_k,
                public,
                acc,
                s,
            );
            let (r, s3) = access_run(acc2, log_t, s2);
            let acc3 = ram_ra::cached(
                acc2,
                ra_address(acc2, ram_log_k as int),
                r->Ok_0.0,
                accepted.ram_ra,
            );
            ||| proof.inc[1] == accepted.inc[1] && ram_inc_weight(acc3, log_t, s3).times(
                proof.inc[0].minus(accepted.inc[0]),
            ) != F::of_int(0)
            ||| proof.inc[0] == accepted.inc[0] && rd_inc_weight(acc3, log_t, s3).times(
                proof.inc[1].minus(accepted.inc[1]),
            ) != F::of_int(0)
        }),
    ensures
        verdict(proof, log_t, ram_log_k, reg_log_k, public, acc, s).0 == Err::<
            (),
            MemoryStageError,
        >(MemoryStageError::IncClaim),
{
    let (acc2, s2) = after_registers(accepted, log_t, ram_log_k, reg_log_k, public, acc, s);
    let (r, s3) = access_run(acc2, log_t, s2);
    let acc3 = ram_ra::cached(
        acc2,
        ra_address(acc2, ram_log_k as int),
        r->Ok_0.0,
        accepted.ram_ra,
    );
    let g = s3.next();
    let y = inc_point(acc3, log_t, s3);
    let p = inc_points(acc3);
    let w = ram_inc_weight(acc3, log_t, s3);
    let e = poly::eq_mle(y, p.s4).plus(g.times(poly::eq_mle(y, p.s5)));
    let u = rd_inc_weight(acc3, log_t, s3);
    let (a, b) = (accepted.inc, proof.inc);
    F::law_times_comm(w, a[0]);
    F::law_times_comm(w, b[0]);
    lemma_moved(g.times(g), a[1], e);
    lemma_moved(g.times(g), b[1], e);
    F::law_valid(w, a[0]);
    F::law_valid(w, b[0]);
    F::law_valid(u, a[1]);
    F::law_valid(u, b[1]);
    if b[1] == a[1] && w.times(b[0].minus(a[0])) != F::of_int(0) {
        field::lemma_weighted_apart(w, a[0], b[0]);
        field::lemma_sum_apart(w.times(a[0]), w.times(b[0]), u.times(a[1]));
    } else {
        field::lemma_weighted_apart(u, a[1], b[1]);
        field::lemma_sum_apart(u.times(a[1]), u.times(b[1]), w.times(a[0]));
    }
}

/// `(g x) e = (g e) x`.
proof fn lemma_moved<F: Field>(g: F, x: F, e: F)
    ensures
        g.times(x).times(e) == g.times(e).times(x),
{
    F::law_times_assoc(g, x, e);
    F::law_times_comm(x, e);
    F::law_times_assoc(g, e, x);
}

/// How many elements the rounds of the RAM and registers stages have.
pub open spec fn components_read<F: Field>(
    proof: StageClaims<F>,
    log_t: nat,
    ram_log_k: nat,
    reg_log_k: nat,
    s: FsState<F>,
) -> nat {
    ram_stage::stage_read(proof.ram.seeds, log_t, ram_log_k, s) + registers_stage::stage_read(
        log_t,
        reg_log_k,
    )
}

/// How many elements the rounds of all checks up to the access reduction have.
pub open spec fn access_read<F: Field>(
    proof: StageClaims<F>,
    log_t: nat,
    ram_log_k: nat,
    reg_log_k: nat,
    s: FsState<F>,
) -> nat {
    components_read(proof, log_t, ram_log_k, reg_log_k, s) + log_t * (ram_ra::DEGREE as nat + 1)
}

/// How many elements the rounds of all checks have.
pub open spec fn stage_read<F: Field>(
    proof: StageClaims<F>,
    log_t: nat,
    ram_log_k: nat,
    reg_log_k: nat,
    s: FsState<F>,
) -> nat {
    access_read(proof, log_t, ram_log_k, reg_log_k, s) + log_t * (increments::DEGREE as nat + 1)
}

/// A change behind the rounds of the RAM and registers stages.
proof fn lemma_components_later<F: Field>(
    proof: StageClaims<F>,
    log_t: nat,
    ram_log_k: nat,
    reg_log_k: nat,
    public: PublicColumns<F>,
    acc: Claims<F>,
    s: FsState<F>,
    j: int,
    delta: F,
)
    requires
        verdict(proof, log_t, ram_log_k, reg_log_k, public, acc, s).0 is Ok,
        components_read(proof, log_t, ram_log_k, reg_log_k, s) <= j < s.tape.len(),
    ensures
        ({
            let t = sumcheck::changed(s, j, delta);
            let read = components_read(proof, log_t, ram_log_k, reg_log_k, s);
            let (acc2, s2) = after_registers(
                proof,
                log_t,
                ram_log_k,
                reg_log_k,
                public,
                acc,
                s,
            );
            &&& verdict(proof, log_t, ram_log_k, reg_log_k, public, acc, s) == verdict_ra(
                proof,
                log_t,
                ram_log_k,
                acc2,
                s2,
            )
            &&& verdict(proof, log_t, ram_log_k, reg_log_k, public, acc, t) == verdict_ra(
                proof,
                log_t,
                ram_log_k,
                acc2,
                sumcheck::changed(s2, j - read, delta),
            )
            &&& s2.tape.len() == s.tape.len() - read
        }),
{
    let read = ram_stage::stage_read(proof.ram.seeds, log_t, ram_log_k, s);
    let (r1, acc1, s1) = ram_stage::verdict(proof.ram, log_t, ram_log_k, public, acc, s);
    ram_stage::lemma_changed_later(proof.ram, log_t, ram_log_k, public, acc, s, j, delta);
    registers_stage::lemma_changed_later(
        proof.registers,
        log_t,
        reg_log_k,
        acc1,
        s1,
        j - read,
        delta,
    );
}

/// A change behind the rounds of the access reduction.
proof fn lemma_access_later<F: Field>(
    acc: Claims<F>,
    log_t: nat,
    s: FsState<F>,
    j: int,
    delta: F,
)
    requires
        access_run(acc, log_t, s).0 is Ok,
        log_t * (ram_ra::DEGREE as nat + 1) <= j < s.tape.len(),
    ensures
        ({
            let (r, s1) = access_run(acc, log_t, s);
            let read = log_t * (ram_ra::DEGREE as nat + 1);
            &&& access_run(acc, log_t, sumcheck::changed(s, j, delta)) == (
                r,
                sumcheck::changed(s1, j - read, delta),
            )
            &&& s1.tape.len() == s.tape.len() - read
        }),
{
    assert(sumcheck::changed(s, j, delta).squeeze() == sumcheck::changed(s.squeeze(), j, delta));
    sumcheck::lemma_changed_later(
        ra_claim(acc, s.next()),
        Seq::empty(),
        log_t,
        ram_ra::DEGREE as nat,
        s.squeeze(),
        j,
        delta,
    );
}

/// A change behind an accepted proof leaves its verdict as it is.
pub proof fn lemma_changed_later<F: Field>(
    proof: StageClaims<F>,
    log_t: nat,
    ram_log_k: nat,
    reg_log_k: nat,
    public: PublicColumns<F>,
    acc: Claims<F>,
    s: FsState<F>,
    j: int,
    delta: F,
)
    requires
        verdict(proof, log_t, ram_log_k, reg_log_k, public, acc, s).0 is Ok,
        stage_read(proof, log_t, ram_log_k, reg_log_k, s) <= j < s.tape.len(),
    ensures
        ({
            let (r, acc1, s1) = verdict(proof, log_t, ram_log_k, reg_log_k, public, acc, s);
            let read = stage_read(proof, log_t, ram_log_k, reg_log_k, s);
            let t = sumcheck::changed(s, j, delta);
            &&& verdict(proof, log_t, ram_log_k, reg_log_k, public, acc, t) == (
                r,
                acc1,
                sumcheck::changed(s1, j - read, delta),
            )
            &&& s1.tape.len() == s.tape.len() - read
        }),
{
    lemma_components_later(proof, log_t, ram_log_k, reg_log_k, public, acc, s, j, delta);
    let k = j - components_read(proof, log_t, ram_log_k, reg_log_k, s);
    let (acc2, s2) = after_registers(proof, log_t, ram_log_k, reg_log_k, public, acc, s);
    lemma_access_later(acc2, log_t, s2, k, delta);
    let (r, s3) = access_run(acc2, log_t, s2);
    let acc3 = ram_ra::cached(acc2, ra_address(acc2, ram_log_k as int), r->Ok_0.0, proof.ram_ra);
    let m = k - log_t * (ram_ra::DEGREE as nat + 1);
    assert(sumcheck::changed(s3, m, delta).squeeze() == sumcheck::changed(s3.squeeze(), m, delta));
    sumcheck::lemma_changed_later(
        increments::input(s3.next(), acc3),
        Seq::empty(),
        log_t,
        increments::DEGREE as nat,
        s3.squeeze(),
        m,
        delta,
    );
}

/// An accepted proof is refused when any one element of its rounds is changed, with the error of the
/// stage that reads it.
pub proof fn law_changed_round_refused<F: Field>(
    proof: StageClaims<F>,
    log_t: nat,
    ram_log_k: nat,
    reg_log_k: nat,
    public: PublicColumns<F>,
    acc: Claims<F>,
    s: FsState<F>,
    j: int,
    delta: F,
)
    requires
        verdict(proof, log_t, ram_log_k, reg_log_k, public, acc, s).0 is Ok,
        0 <= j < stage_read(proof, log_t, ram_log_k, reg_log_k, s),
        j < s.tape.len(),
        delta.valid(),
        delta != F::of_int(0),
    ensures
        verdict(
            proof,
            log_t,
            ram_log_k,
            reg_log_k,
            public,
            acc,
            sumcheck::changed(s, j, delta),
        ).0 == Err::<(), MemoryStageError>(
            if j < ram_stage::stage_read(proof.ram.seeds, log_t, ram_log_k, s) {
                MemoryStageError::Ram(RamStageError::Sumcheck)
            } else if j < components_read(proof, log_t, ram_log_k, reg_log_k, s) {
                MemoryStageError::Registers(RegistersStageError::Sumcheck)
            } else {
                MemoryStageError::Sumcheck
            },
        ),
{
    let ram_read = ram_stage::stage_read(proof.ram.seeds, log_t, ram_log_k, s);
    let both = components_read(proof, log_t, ram_log_k, reg_log_k, s);
    if j < ram_read {
        ram_stage::law_changed_round_refused(
            proof.ram,
            log_t,
            ram_log_k,
            public,
            acc,
            s,
            j,
            delta,
        );
    } else if j < both {
        let (r1, acc1, s1) = ram_stage::verdict(proof.ram, log_t, ram_log_k, public, acc, s);
        ram_stage::lemma_changed_later(proof.ram, log_t, ram_log_k, public, acc, s, j, delta);
        registers_stage::law_changed_round_refused(
            proof.registers,
            log_t,
            reg_log_k,
            acc1,
            s1,
            j - ram_read,
            delta,
        );
    } else {
        lemma_components_later(proof, log_t, ram_log_k, reg_log_k, public, acc, s, j, delta);
        let (acc2, s2) = after_registers(proof, log_t, ram_log_k, reg_log_k, public, acc, s);
        let k = j - both;
        if k < log_t * (ram_ra::DEGREE as nat + 1) {
            assert(sumcheck::changed(s2, k, delta).squeeze() == sumcheck::changed(
                s2.squeeze(),
                k,
                delta,
            ));
            sumcheck::law_changed_round_refused(
                ra_claim(acc2, s2.next()),
                Seq::empty(),
                log_t,
                ram_ra::DEGREE as nat,
                s2.squeeze(),
                k,
                delta,
            );
        } else {
            lemma_access_later(acc2, log_t, s2, k, delta);
            let (r, s3) = access_run(acc2, log_t, s2);
            let acc3 = ram_ra::cached(
                acc2,
                ra_address(acc2, ram_log_k as int),
                r->Ok_0.0,
                proof.ram_ra,
            );
            let m = k - log_t * (ram_ra::DEGREE as nat + 1);
            assert(sumcheck::changed(s3, m, delta).squeeze() == sumcheck::changed(
                s3.squeeze(),
                m,
                delta,
            ));
            sumcheck::law_changed_round_refused(
                increments::input(s3.next(), acc3),
                Seq::empty(),
                log_t,
                increments::DEGREE as nat,
                s3.squeeze(),
                m,
                delta,
            );
        }
    }
}

/// The whole run between fresh parties with one label: the proof of a simulated memory and register
/// file with the true output is accepted, the verifier reads all of it, and both parties record the
/// same claims.
pub proof fn law_round_trip<F: Field>(
    ram: RamWitness<F>,
    reg: RegisterWitness<F>,
    trace: Seq<CycleRow>,
    remapped: Seq<CycleRow>,
    ram_k: nat,
    reg_k: nat,
    public: PublicColumns<F>,
    label: Seq<u8>,
)
    requires
        ram.simulates(remapped, ram_k),
        ram_witness::addresses_fit(remapped, ram_k as int),
        reg.simulates(trace, reg_k),
        registers_witness::registers_fit(trace, reg_k as int),
        ram.log_t == reg.log_t,
        public.sized(ram.log_k as nat),
        public.canonical(),
        ram_stage::output_holds(ram, public),
    ensures
        ({
            let none = Claims::<F>::empty();
            let p0 = transcript::fresh(label, Seq::empty());
            let (claims, recorded, p) = honest(ram, reg, public, none, p0);
            let (r, acc, v) = verdict(
                claims,
                ram.log_t as nat,
                ram.log_k as nat,
                reg.log_k as nat,
                public,
                none,
                transcript::fresh(label, p.tape),
            );
            &&& r is Ok
            &&& acc == recorded
            &&& v.tape.len() == 0
        }),
{
    let none = Claims::<F>::empty();
    let p0 = transcript::fresh::<F>(label, Seq::empty());
    let p = honest(ram, reg, public, none, p0).2;
    let v = transcript::fresh(label, p.tape);
    transcript::law_fresh(label, p.tape);
    law_complete(ram, reg, trace, remapped, ram_k, reg_k, public, none, p0, v, p.tape);
}

/// The reduced claims that an honest memory stage leaves are true of the columns that their names say:
/// the access claim of the access matrix, the memory increment claim of the memory increments, and the
/// register increment claim of the register increments. The increment claims are at one point.
pub proof fn law_named_claims<F: Field>(
    ram: RamWitness<F>,
    reg: RegisterWitness<F>,
    trace: Seq<CycleRow>,
    remapped: Seq<CycleRow>,
    ram_k: nat,
    reg_k: nat,
    public: PublicColumns<F>,
    acc: Claims<F>,
    p: FsState<F>,
)
    requires
        ram.simulates(remapped, ram_k),
        ram_witness::addresses_fit(remapped, ram_k as int),
        reg.simulates(trace, reg_k),
        registers_witness::registers_fit(trace, reg_k as int),
        ram.log_t == reg.log_t,
        public.sized(ram.log_k as nat),
        public.canonical(),
        p.canonical(),
    ensures
        ({
            let (claims, acc1, p1) = honest(ram, reg, public, acc, p);
            let log_t = ram.log_t as nat;
            let told = |id: OpeningId, column: Seq<F>, vars: nat|
                acc1.contains_key(id) && acc1[id].0.len() == vars && acc1[id].1 == poly::mle(
                    column,
                    acc1[id].0,
                );
            let reduction = SumcheckId::IncClaimReduction;
            let rd = OpeningId::Committed(CommittedPolynomial::RdInc, reduction);
            let words = OpeningId::Committed(CommittedPolynomial::RamInc, reduction);
            &&& told(
                OpeningId::Virtual(VirtualPolynomial::RamRa, SumcheckId::RamRaClaimReduction),
                ram.ra@,
                ram.log_k as nat + log_t,
            )
            &&& told(words, ram.inc@, log_t)
            &&& told(rd, reg.inc@, log_t)
            &&& acc1[words].0 == acc1[rd].0
            &&& p1.canonical()
        }),
{
    let log_t = ram.log_t as nat;
    let log_k = ram.log_k as nat;
    poly::lemma_pow2_concat(log_k, log_t);
    ram_witness::lemma_witness_valid(ram, remapped, ram_k);
    registers_witness::lemma_witness_valid(reg, trace, reg_k);
    let (c1, acc1, p1) = ram_stage::honest(ram, public, acc, p);
    let (c2, acc2, p2) = registers_stage::honest(reg, acc1, p1);
    ram_stage::lemma_honest_extends(ram, public, acc, p);
    registers_stage::lemma_honest_extends(reg, acc1, p1);
    ram_stage::law_openings(ram, remapped, ram_k, public, acc, p);
    registers_stage::law_openings(reg, trace, reg_k, acc1, p1);
    registers_stage::lemma_honest_keeps(reg, acc1, p1);
    lemma_ram_kept(acc1, acc2);
    let g3 = p2.next();
    F::law_valid(g3, g3);
    let t3 = ra_table(ram, acc2, g3);
    let address = ra_address(acc2, log_k as int);
    let pts = ra_points(acc2, log_k as int);
    let ra_col = access::at_address(ram.ra@, address, pow2(log_t));
    assert(field::all_valid(ra_col)) by {
        assert forall|j: int| 0 <= j < ra_col.len() implies (#[trigger] ra_col[j]).valid() by {
            sums::lemma_sum_valid(
                pow2(address.len()) as int,
                |k: int| poly::eq_weight(address, k).times(ram.ra@[k * pow2(log_t) + j]),
            );
        }
    }
    ram_ra::law_table_shaped(g3, g3.times(g3), pts, ra_col, log_t);
    let (xs, p3) = sumcheck::prove_run(t3, log_t, p2.squeeze());
    sumcheck::lemma_run_extends(t3, log_t, p2.squeeze());
    sumcheck::lemma_bound_columns(t3, xs);
    access::lemma_at_address(ram.ra@, address, xs.reverse());
    let row3 = sumcheck::bound_row(t3.columns, xs);
    assert(row3[0] == poly::mle(ra_col, xs.reverse()));
    let acc3 = ram_ra::cached(acc2, address, xs, row3[0]);
    let t4 = inc_table(ram, reg, acc3, p3.next());
    increments::law_table_shaped(p3.next(), inc_points(acc3), ram.inc@, reg.inc@, log_t);
    let (ys, p4) = sumcheck::prove_run(t4, log_t, p3.squeeze());
    sumcheck::lemma_run_extends(t4, log_t, p3.squeeze());
    sumcheck::lemma_bound_columns(t4, ys);
    let row4 = sumcheck::final_row(t4.columns, ys);
    assert(row4[0] == poly::mle(ram.inc@, ys.reverse()));
    assert(row4[1] == poly::mle(reg.inc@, ys.reverse()));
}

} // verus!
