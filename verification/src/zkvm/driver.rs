//! The binary stages on one transcript: Spartan, memory, and the booleanity of the sign and carry
//! columns.

use crate::field;
use crate::field::Field;
use crate::framework::accumulator;
use crate::framework::accumulator::{
    Claims, CommittedPolynomial, OpeningId, Openings, SumcheckId,
};
use crate::framework::gruen;
use crate::framework::poly;
use crate::framework::sumcheck;
use crate::framework::sumcheck::{SumTable, SumcheckClaim};
use crate::framework::sums;
use crate::framework::transcript;
use crate::framework::transcript::{FsState, ProverFs, VerifierFs};
use crate::r1cs::key::R1csKey;
use crate::r1cs::layout::{
    ADD_C0, LEFT_SIGN, NUM_VARS, PRODUCT_SIGN, RAM_ADDR_C0, RIGHT_SIGN, SIGN_PROD, SUB_C0, SUB_C1,
};
use crate::zkvm::booleanity;
use crate::zkvm::booleanity::{Booleanity, BooleanityParams};
use crate::zkvm::memory;
use crate::zkvm::memory::{prove_memory, verify_memory, MemoryStageError, MemoryStageProof};
use crate::zkvm::r1cs_witness;
use crate::zkvm::r1cs_witness::R1csWitness;
use crate::zkvm::ram::stage as ram_stage;
use crate::zkvm::ram::stage::PublicColumns;
use crate::zkvm::ram::witness as ram_witness;
use crate::zkvm::ram::witness::RamWitness;
use crate::zkvm::registers::witness as registers_witness;
use crate::zkvm::registers::witness::RegisterWitness;
use crate::zkvm::spartan::stage as spartan_stage;
use crate::zkvm::spartan::stage::{
    prove_spartan, verify_spartan, SpartanProof, SpartanStageError,
};
use crate::zkvm::trace::CycleRow;
use vstd::arithmetic::power2::pow2;
use vstd::prelude::*;

verus! {

/// The public columns of the memory: the physical addresses, the announced output values and the
/// output region.
#[derive(Debug)]
pub struct RamPublicColumns<F> {
    pub unmap: Vec<F>,
    pub val_io: Vec<F>,
    pub io_mask: Vec<F>,
}

impl<F: Field> View for RamPublicColumns<F> {
    type V = PublicColumns<F>;

    open spec fn view(&self) -> PublicColumns<F> {
        PublicColumns { unmap: self.unmap@, val_io: self.val_io@, io_mask: self.io_mask@ }
    }
}

/// Why a proof is rejected.
#[derive(Clone, Copy, Debug, PartialEq, Eq, Structural)]
pub enum DriverError {
    /// The Spartan stage failed.
    Spartan(SpartanStageError),
    /// The memory stage failed.
    Memory(MemoryStageError),
    /// The sign and carry columns were not shown to hold only bits.
    Booleanity,
}

/// The claims of the three stages.
#[derive(Debug)]
pub struct BinaryProof<F> {
    pub spartan: SpartanProof<F>,
    pub memory: MemoryStageProof<F>,
    /// The reduced openings of the sign and carry columns.
    pub aux_evals: Vec<F>,
}

/// The claims of a proof of the three stages.
#[verifier::ext_equal]
#[verifier::reject_recursive_types(F)]
pub struct BinaryClaims<F> {
    pub spartan: SpartanProof<F>,
    pub memory: memory::StageClaims<F>,
    pub aux: Seq<F>,
}

impl<F: Field> View for BinaryProof<F> {
    type V = BinaryClaims<F>;

    open spec fn view(&self) -> BinaryClaims<F> {
        BinaryClaims { spartan: self.spartan, memory: self.memory@, aux: self.aux_evals@ }
    }
}

/// The table of the booleanity check.
pub open spec fn aux_table<F: Field>(w: R1csWitness<F>, r: Seq<F>, g: F) -> SumTable<F> {
    booleanity::table(
        booleanity::even_powers(g, r1cs_witness::aux_vars().len()),
        r,
        w.aux_columns(),
    )
}

/// The openings, the records and the transcript of an honest booleanity check.
pub open spec fn honest_aux<F: Field>(w: R1csWitness<F>, acc: Claims<F>, s: FsState<F>) -> (
    Seq<F>,
    Claims<F>,
    FsState<F>,
) {
    let n = w.log_num_cycles as nat;
    let s1 = s.squeeze_n(n);
    let tab = aux_table(w, s.coins(n), s1.next());
    let (xs, s2) = gruen::claimed_run(tab, s.coins(n), F::of_int(0), s1.squeeze());
    let evals = sumcheck::bound_row(tab.columns, xs).skip(1);
    (evals, booleanity::cached(acc, xs, evals, evals.len() as int), s2)
}

/// The claims, the records and the transcript of an honest proof.
pub open spec fn honest<F: Field>(
    w: R1csWitness<F>,
    ram: RamWitness<F>,
    reg: RegisterWitness<F>,
    public: PublicColumns<F>,
    key: R1csKey<F>,
    acc: Claims<F>,
    s: FsState<F>,
) -> (BinaryClaims<F>, Claims<F>, FsState<F>) {
    let (c1, acc1, s1) = spartan_stage::honest(w, key, acc, s);
    let (c2, acc2, s2) = memory::honest(ram, reg, public, acc1, s1);
    let (c3, acc3, s3) = honest_aux(w, acc2, s2);
    (BinaryClaims { spartan: c1, memory: c2, aux: c3 }, acc3, s3)
}

/// What the prover needs to know of its inputs.
pub open spec fn provable<F: Field>(
    w: R1csWitness<F>,
    ram: RamWitness<F>,
    reg: RegisterWitness<F>,
    public: PublicColumns<F>,
    key: R1csKey<F>,
) -> bool {
    &&& w.fits(key)
    &&& w.num_vars_padded >= NUM_VARS
    &&& ram.sized()
    &&& reg.sized()
    &&& ram.log_t == reg.log_t
    &&& ram.log_k + ram.log_t <= usize::MAX
    &&& reg.log_k + reg.log_t <= usize::MAX
    &&& public.sized(ram.log_k as nat)
}

/// Prove that the sign and carry columns hold only bits.
fn prove_aux<F: Field, T: ProverFs<F>>(
    witness: &R1csWitness<F>,
    accumulator: &mut Openings<F>,
    transcript: &mut T,
) -> (evals: Vec<F>)
    requires
        witness.z@.len() == pow2(witness.log_num_cycles as nat) * witness.num_vars_padded,
        witness.num_vars_padded >= NUM_VARS,
    ensures
        (evals@, final(accumulator)@, final(transcript).state()) == honest_aux(
            *witness,
            old(accumulator)@,
            old(transcript).state(),
        ),
{
    let ghost acc0 = accumulator@;
    let ghost s = transcript.state();
    let log_t: usize = witness.log_num_cycles;
    let len: usize = witness.z.len();
    proof {
        transcript::lemma_coins_len(s, log_t as nat);
        vstd::arithmetic::power2::lemma_pow2_pos(log_t as nat);
        poly::lemma_factors(pow2(log_t as nat), witness.num_vars_padded as nat);
    }
    let columns: Vec<Vec<F>> = witness.boolean_aux_columns();
    let ghost cols = witness.aux_columns();
    let n: usize = columns.len();
    assert(poly::contents(columns@).len() == cols.len());
    assert(columns@.map_values(|c: Vec<F>| c@) =~= cols) by {
        assert forall|i: int| 0 <= i < n implies columns@[i]@ == #[trigger] cols[i] by {
            assert(poly::contents(columns@)[i] == columns@[i]@);
        }
    }
    let r: Vec<F> = transcript::challenge_vector(transcript, log_t);
    let params: BooleanityParams<F> = BooleanityParams::new(r, n, transcript);
    let mut check: Booleanity<F> = Booleanity::new_prover(params, columns);
    let ghost tab = check.sum@;
    proof {
        booleanity::law_table_shaped(params.gamma_sq_powers@, params.r@, cols);
    }
    let claim: F = check.input_claim();
    let xs: Vec<F> = gruen::prove_claimed(&mut check.sum, &check.params.r, claim, transcript);
    proof {
        sumcheck::lemma_opened(tab, xs@, check.sum@);
    }
    let ghost evals = sumcheck::bound_row(tab.columns, xs@).skip(1);
    assert(check.sum@.columns.skip(1).map_values(|p: Seq<F>| p[0]) =~= evals) by {
        assert forall|i: int| 0 <= i < n implies check.sum@.columns[i + 1][0] == #[trigger] evals[i] by {
            assert(tab.columns.len() == n + 1);
        }
    }
    check.cache_openings(accumulator, &xs);
    let mut out: Vec<F> = Vec::new();
    for i in 0..n
        invariant
            n == evals.len(),
            accumulator@ == booleanity::cached(acc0, xs@, evals, n as int),
            out@ == evals.take(i as int),
    {
        proof {
            booleanity::lemma_cached(acc0, xs@, evals, n as int, i as int);
        }
        out.push(
            accumulator.committed_claim(CommittedPolynomial::R1csAux(i), SumcheckId::Booleanity),
        );
        assert(out@ =~= evals.take(i + 1));
    }
    assert(out@ =~= evals);
    out
}

/// Prove the binary stages onto an accumulator of the caller's.
pub fn prove_binary_into<F: Field, T: ProverFs<F>>(
    witness: &R1csWitness<F>,
    ram_w: &RamWitness<F>,
    reg_w: &RegisterWitness<F>,
    ram_public: &RamPublicColumns<F>,
    key: &R1csKey<F>,
    accumulator: &mut Openings<F>,
    transcript: &mut T,
) -> (proof: BinaryProof<F>)
    requires
        provable(*witness, *ram_w, *reg_w, ram_public@, *key),
    ensures
        (proof@, final(accumulator)@, final(transcript).state()) == honest(
            *witness,
            *ram_w,
            *reg_w,
            ram_public@,
            *key,
            old(accumulator)@,
            old(transcript).state(),
        ),
{
    let spartan: SpartanProof<F> = prove_spartan(witness, key, accumulator, transcript);
    let memory: MemoryStageProof<F> = prove_memory(
        ram_w,
        reg_w,
        &ram_public.unmap,
        &ram_public.val_io,
        &ram_public.io_mask,
        accumulator,
        transcript,
    );
    proof {
        poly::lemma_pow2_concat(key.log_cycles as nat, key.log_vars as nat);
    }
    let aux_evals: Vec<F> = prove_aux(witness, accumulator, transcript);
    BinaryProof { spartan, memory, aux_evals }
}

/// Prove the binary stages.
pub fn prove_binary<F: Field, T: ProverFs<F>>(
    witness: &R1csWitness<F>,
    ram_w: &RamWitness<F>,
    reg_w: &RegisterWitness<F>,
    ram_public: &RamPublicColumns<F>,
    key: &R1csKey<F>,
    transcript: &mut T,
) -> (proof: BinaryProof<F>)
    requires
        provable(*witness, *ram_w, *reg_w, ram_public@, *key),
    ensures
        ({
            let (claims, acc, s) = honest(
                *witness,
                *ram_w,
                *reg_w,
                ram_public@,
                *key,
                Map::<OpeningId, (Seq<F>, F)>::empty(),
                old(transcript).state(),
            );
            proof@ == claims && final(transcript).state() == s
        }),
{
    let mut accumulator: Openings<F> = Openings::new(witness.log_num_cycles);
    prove_binary_into(witness, ram_w, reg_w, ram_public, key, &mut accumulator, transcript)
}

/// The verdict on the booleanity check, the recorded claims, and the transcript after it.
pub open spec fn verdict_aux<F: Field>(
    evals: Seq<F>,
    log_t: nat,
    acc: Claims<F>,
    s: FsState<F>,
) -> (
    Result<(), DriverError>,
    Claims<F>,
    FsState<F>,
) {
    let r = s.coins(log_t);
    let s1 = s.squeeze_n(log_t);
    let powers = booleanity::even_powers(s1.next(), evals.len());
    let (verdict, s2) = sumcheck::verify_run(
        F::of_int(0),
        log_t,
        booleanity::DEGREE as nat,
        s1.squeeze(),
    );
    match verdict {
        Err(_) => (Err(DriverError::Booleanity), acc, s2),
        Ok((xs, value)) => {
            let acc1 = booleanity::cached(acc, xs, evals, evals.len() as int);
            if value != booleanity::output(powers, r, acc1, xs) {
                (Err(DriverError::Booleanity), acc1, s2)
            } else {
                (Ok(()), acc1, s2)
            }
        },
    }
}

/// The verdict on a proof, the recorded claims, and the transcript after it.
pub open spec fn verdict<F: Field>(
    proof: BinaryClaims<F>,
    key: R1csKey<F>,
    log_t: nat,
    ram_log_k: nat,
    reg_log_k: nat,
    public: PublicColumns<F>,
    acc: Claims<F>,
    s: FsState<F>,
) -> (Result<(), DriverError>, Claims<F>, FsState<F>) {
    let (r1, acc1, s1) = spartan_stage::verdict(proof.spartan, key, acc, s);
    match r1 {
        Err(e) => (Err(DriverError::Spartan(e)), acc1, s1),
        Ok(_) => {
            let (r2, acc2, s2) = memory::verdict(
                proof.memory,
                log_t,
                ram_log_k,
                reg_log_k,
                public,
                acc1,
                s1,
            );
            match r2 {
                Err(e) => (Err(DriverError::Memory(e)), acc2, s2),
                Ok(_) => verdict_aux(proof.aux, log_t, acc2, s2),
            }
        },
    }
}

/// Verify that the sign and carry columns hold only bits.
fn verify_aux<F: Field, T: VerifierFs<F>>(
    evals: &Vec<F>,
    log_t: usize,
    accumulator: &mut Openings<F>,
    transcript: &mut T,
) -> (r: Result<(), DriverError>)
    ensures
        (r, final(accumulator)@, final(transcript).state()) == verdict_aux(
            evals@,
            log_t as nat,
            old(accumulator)@,
            old(transcript).state(),
        ),
{
    let ghost acc0 = accumulator@;
    proof {
        transcript::lemma_coins_len(transcript.state(), log_t as nat);
    }
    let n: usize = evals.len();
    let r: Vec<F> = transcript::challenge_vector(transcript, log_t);
    let params: BooleanityParams<F> = BooleanityParams::new(r, n, transcript);
    let check: Booleanity<F> = Booleanity::new_verifier(params);
    let claim: SumcheckClaim<F> = SumcheckClaim {
        num_vars: log_t,
        degree: booleanity::DEGREE,
        claimed_sum: check.input_claim(),
    };
    let eval = match sumcheck::verify(&claim, transcript) {
        Err(_) => {
            return Err(DriverError::Booleanity);
        },
        Ok(e) => e,
    };
    for i in 0..n
        invariant
            n == evals@.len(),
            accumulator@ == booleanity::cached(acc0, eval.point@, evals@, i as int),
    {
        accumulator.append_dense(
            CommittedPolynomial::R1csAux(i),
            SumcheckId::Booleanity,
            poly::reversed(&eval.point),
            evals[i],
        );
    }
    assert forall|i: int| 0 <= i < n implies accumulator@.contains_key(
        #[trigger] booleanity::reduced_id(i),
    ) by {
        booleanity::lemma_cached(acc0, eval.point@, evals@, n as int, i);
    }
    let expected: F = check.expected_output_claim(accumulator, &eval.point);
    if !eval.value.same(expected) {
        return Err(DriverError::Booleanity);
    }
    Ok(())
}

/// Verify the binary stages against an accumulator of the caller's.
pub fn verify_binary_into<F: Field, T: VerifierFs<F>>(
    proof: &BinaryProof<F>,
    key: &R1csKey<F>,
    num_row_vars: usize,
    log_num_cycles: usize,
    ram_log_k: usize,
    reg_log_k: usize,
    ram_public: &RamPublicColumns<F>,
    accumulator: &mut Openings<F>,
    transcript: &mut T,
) -> (r: Result<(), DriverError>)
    requires
        key.wf(),
        num_row_vars == key.row_vars(),
        ram_log_k + log_num_cycles <= usize::MAX,
        reg_log_k + log_num_cycles <= usize::MAX,
        ram_public@.sized(ram_log_k as nat),
    ensures
        (r, final(accumulator)@, final(transcript).state()) == verdict(
            proof@,
            *key,
            log_num_cycles as nat,
            ram_log_k as nat,
            reg_log_k as nat,
            ram_public@,
            old(accumulator)@,
            old(transcript).state(),
        ),
{
    match verify_spartan(&proof.spartan, key, num_row_vars, accumulator, transcript) {
        Err(e) => {
            return Err(DriverError::Spartan(e));
        },
        Ok(_) => {},
    }
    match verify_memory(
        &proof.memory,
        log_num_cycles,
        ram_log_k,
        reg_log_k,
        &ram_public.unmap,
        &ram_public.val_io,
        &ram_public.io_mask,
        accumulator,
        transcript,
    ) {
        Err(e) => {
            return Err(DriverError::Memory(e));
        },
        Ok(_) => {},
    }
    verify_aux(&proof.aux_evals, log_num_cycles, accumulator, transcript)
}

/// Verify the binary stages.
pub fn verify_binary<F: Field, T: VerifierFs<F>>(
    proof: &BinaryProof<F>,
    key: &R1csKey<F>,
    num_row_vars: usize,
    log_num_cycles: usize,
    ram_log_k: usize,
    reg_log_k: usize,
    ram_public: &RamPublicColumns<F>,
    transcript: &mut T,
) -> (r: Result<(), DriverError>)
    requires
        key.wf(),
        num_row_vars == key.row_vars(),
        ram_log_k + log_num_cycles <= usize::MAX,
        reg_log_k + log_num_cycles <= usize::MAX,
        ram_public@.sized(ram_log_k as nat),
    ensures
        ({
            let (verdict, acc, s) = verdict(
                proof@,
                *key,
                log_num_cycles as nat,
                ram_log_k as nat,
                reg_log_k as nat,
                ram_public@,
                Map::<OpeningId, (Seq<F>, F)>::empty(),
                old(transcript).state(),
            );
            r == verdict && final(transcript).state() == s
        }),
{
    let mut accumulator: Openings<F> = Openings::new(log_num_cycles);
    verify_binary_into(
        proof,
        key,
        num_row_vars,
        log_num_cycles,
        ram_log_k,
        reg_log_k,
        ram_public,
        &mut accumulator,
        transcript,
    )
}

/// The sign and carry columns hold only bits.
pub open spec fn aux_boolean<F: Field>(w: R1csWitness<F>) -> bool {
    forall|c: int, x: int|
        0 <= c < w.aux_columns().len() && 0 <= x < pow2(w.log_num_cycles as nat)
            ==> #[trigger] w.aux_columns()[c][x] == F::of_int(0) || w.aux_columns()[c][x]
            == F::of_int(1)
}

/// Completeness of the booleanity check.
pub proof fn law_aux_complete<F: Field>(
    w: R1csWitness<F>,
    acc: Claims<F>,
    p: FsState<F>,
    v: FsState<F>,
    whole: Seq<F>,
)
    requires
        aux_boolean(w),
        p.canonical(),
        transcript::synced(p, v, whole),
        honest_aux(w, acc, p).2.tape.is_prefix_of(whole),
    ensures
        ({
            let (evals, acc1, p1) = honest_aux(w, acc, p);
            let (r, acc2, v1) = verdict_aux(evals, w.log_num_cycles as nat, acc, v);
            &&& r is Ok
            &&& acc2 == acc1
            &&& transcript::synced(p1, v1, whole)
            &&& p1.canonical()
        }),
{
    let n = w.log_num_cycles as nat;
    let later = honest_aux(w, acc, p).2.tape;
    let r = p.coins(n);
    let p1 = p.squeeze_n(n);
    let v1 = v.squeeze_n(n);
    transcript::lemma_coins_len(p, n);
    transcript::lemma_synced_squeeze_n(p, v, whole, n);
    transcript::lemma_synced_squeeze(p1, v1, whole);
    let cols = w.aux_columns();
    let g = p1.next();
    let powers = booleanity::even_powers(g, cols.len());
    let tab = aux_table(w, r, g);
    assert(field::all_valid(powers)) by {
        assert forall|i: int| 0 <= i < powers.len() implies (#[trigger] powers[i]).valid() by {
            sums::lemma_power_valid(g.times(g), i);
        }
    }
    assert forall|c: int| 0 <= c < cols.len() implies field::all_valid(#[trigger] cols[c]) by {
        assert forall|x: int| 0 <= x < cols[c].len() implies (#[trigger] cols[c][x]).valid() by {
            F::law_of_int_valid(0);
            F::law_of_int_valid(1);
        }
    }
    booleanity::law_table_shaped(powers, r, cols);
    booleanity::law_total(powers, r, cols);
    gruen::law_true_claim(tab, r, F::of_int(0), p1.squeeze());
    sumcheck::lemma_step_complete(tab, n, p1.squeeze(), v1.squeeze(), whole, later);
    let (xs, p2) = sumcheck::prove_run(tab, n, p1.squeeze());
    let row = sumcheck::bound_row(tab.columns, xs);
    let evals = row.skip(1);
    booleanity::law_output(powers, r, cols, acc, xs);
    assert(evals =~= cols.map_values(|c: Seq<F>| poly::mle(c, xs.reverse()))) by {
        assert forall|i: int| 0 <= i < cols.len() implies #[trigger] evals[i] == poly::mle(
            cols[i],
            xs.reverse(),
        ) by {
            assert(tab.columns[i + 1] == cols[i]);
        }
    }
}

/// Completeness: the honest proof of a satisfied constraint system, of simulated memory and
/// registers, and of sign and carry columns of bits is accepted, and both parties record the same
/// claims.
pub proof fn law_complete<F: Field>(
    w: R1csWitness<F>,
    ram: RamWitness<F>,
    reg: RegisterWitness<F>,
    trace: Seq<CycleRow>,
    remapped: Seq<CycleRow>,
    ram_k: nat,
    reg_k: nat,
    public: PublicColumns<F>,
    key: R1csKey<F>,
    acc: Claims<F>,
    p: FsState<F>,
    v: FsState<F>,
    whole: Seq<F>,
)
    requires
        w.belongs_to(key),
        w.satisfied(),
        field::all_valid(w.z@),
        aux_boolean(w),
        ram.simulates(remapped, ram_k),
        ram_witness::addresses_fit(remapped, ram_k as int),
        reg.simulates(trace, reg_k),
        registers_witness::registers_fit(trace, reg_k as int),
        ram.log_t == reg.log_t,
        ram.log_t == w.log_num_cycles,
        public.sized(ram.log_k as nat),
        public.canonical(),
        ram_stage::output_holds(ram, public),
        p.canonical(),
        transcript::synced(p, v, whole),
        honest(w, ram, reg, public, key, acc, p).2.tape.is_prefix_of(whole),
    ensures
        ({
            let (claims, acc1, p1) = honest(w, ram, reg, public, key, acc, p);
            let (r, acc2, v1) = verdict(
                claims,
                key,
                w.log_num_cycles as nat,
                ram.log_k as nat,
                reg.log_k as nat,
                public,
                acc,
                v,
            );
            &&& r is Ok
            &&& acc2 == acc1
            &&& transcript::synced(p1, v1, whole)
            &&& p1.canonical()
        }),
{
    let n = w.log_num_cycles as nat;
    let later = honest(w, ram, reg, public, key, acc, p).2.tape;
    let (c1, acc1, p1) = spartan_stage::honest(w, key, acc, p);
    let (c2, acc2, p2) = memory::honest(ram, reg, public, acc1, p1);
    spartan_stage::lemma_honest_extends(w, key, acc, p);
    memory::lemma_honest_extends(ram, reg, public, acc1, p1);
    transcript::lemma_coins_len(p2, n);
    let ps = p2.squeeze_n(n);
    gruen::lemma_run_extends(
        aux_table(w, p2.coins(n), ps.next()),
        p2.coins(n),
        F::of_int(0),
        ps.squeeze(),
    );
    transcript::lemma_prefix_trans(p2.tape, later, whole);
    transcript::lemma_prefix_trans(p1.tape, p2.tape, whole);
    spartan_stage::law_complete(w, key, acc, p, v, whole);
    let v1 = spartan_stage::verdict(c1, key, acc, v).2;
    memory::law_complete(
        ram,
        reg,
        trace,
        remapped,
        ram_k,
        reg_k,
        public,
        acc1,
        p1,
        v1,
        whole,
    );
    let v2 = memory::verdict(c2, n, ram.log_k as nat, reg.log_k as nat, public, acc1, v1).2;
    law_aux_complete(w, acc2, p2, v2, whole);
}

/// An error of the Spartan stage is the error of the whole.
pub proof fn law_spartan_error_carried<F: Field>(
    proof: BinaryClaims<F>,
    key: R1csKey<F>,
    log_t: nat,
    ram_log_k: nat,
    reg_log_k: nat,
    public: PublicColumns<F>,
    acc: Claims<F>,
    s: FsState<F>,
    e: SpartanStageError,
)
    requires
        spartan_stage::verdict(proof.spartan, key, acc, s).0 == Err::<(), SpartanStageError>(e),
    ensures
        verdict(proof, key, log_t, ram_log_k, reg_log_k, public, acc, s).0 == Err::<
            (),
            DriverError,
        >(DriverError::Spartan(e)),
{
}

/// Behind an accepted Spartan stage an error of the memory stage is the error of the whole.
pub proof fn law_memory_error_carried<F: Field>(
    proof: BinaryClaims<F>,
    key: R1csKey<F>,
    log_t: nat,
    ram_log_k: nat,
    reg_log_k: nat,
    public: PublicColumns<F>,
    acc: Claims<F>,
    s: FsState<F>,
    e: MemoryStageError,
)
    requires
        spartan_stage::verdict(proof.spartan, key, acc, s).0 is Ok,
        ({
            let (r, acc1, s1) = spartan_stage::verdict(proof.spartan, key, acc, s);
            memory::verdict(proof.memory, log_t, ram_log_k, reg_log_k, public, acc1, s1).0 == Err::<
                (),
                MemoryStageError,
            >(e)
        }),
    ensures
        verdict(proof, key, log_t, ram_log_k, reg_log_k, public, acc, s).0 == Err::<
            (),
            DriverError,
        >(DriverError::Memory(e)),
{
}

/// Where one proof is accepted, another whose row openings say something else of the row is refused
/// by the Spartan stage, unless their weight cancels the difference.
pub proof fn law_changed_rows_refused<F: Field>(
    accepted: BinaryClaims<F>,
    proof: BinaryClaims<F>,
    key: R1csKey<F>,
    log_t: nat,
    ram_log_k: nat,
    reg_log_k: nat,
    public: PublicColumns<F>,
    acc: Claims<F>,
    s: FsState<F>,
)
    requires
        verdict(accepted, key, log_t, ram_log_k, reg_log_k, public, acc, s).0 is Ok,
        spartan_stage::row_weight(key, s).times(
            spartan_stage::said(proof.spartan).minus(spartan_stage::said(accepted.spartan)),
        ) != F::of_int(0),
    ensures
        verdict(proof, key, log_t, ram_log_k, reg_log_k, public, acc, s).0 == Err::<
            (),
            DriverError,
        >(DriverError::Spartan(SpartanStageError::OuterClaim)),
{
    spartan_stage::law_changed_rows_refused(accepted.spartan, proof.spartan, key, acc, s);
}

/// The challenge of the batch and the weight of the openings in the booleanity check.
pub open spec fn aux_weight<F: Field>(log_t: nat, s: FsState<F>) -> (F, F) {
    let s1 = s.squeeze_n(log_t);
    let xs = sumcheck::verify_run(
        F::of_int(0),
        log_t,
        booleanity::DEGREE as nat,
        s1.squeeze(),
    ).0->Ok_0.0;
    (s1.next(), poly::eq_mle(s.coins(log_t), xs.reverse()))
}

/// Where some auxiliary openings are accepted, as many others are refused by the booleanity check,
/// unless their weight cancels the difference of the batches.
pub proof fn law_changed_aux_refused<F: Field>(
    accepted: Seq<F>,
    evals: Seq<F>,
    log_t: nat,
    acc: Claims<F>,
    s: FsState<F>,
)
    requires
        verdict_aux(accepted, log_t, acc, s).0 is Ok,
        evals.len() == accepted.len() <= usize::MAX,
        ({
            let (g, w) = aux_weight(log_t, s);
            let powers = booleanity::even_powers(g, accepted.len());
            w.times(booleanity::batch(powers, evals).minus(booleanity::batch(powers, accepted)))
                != F::of_int(0)
        }),
    ensures
        verdict_aux(evals, log_t, acc, s).0 == Err::<(), DriverError>(DriverError::Booleanity),
{
    let (g, w) = aux_weight(log_t, s);
    let n = accepted.len();
    let powers = booleanity::even_powers(g, n);
    let xs = sumcheck::verify_run(
        F::of_int(0),
        log_t,
        booleanity::DEGREE as nat,
        s.squeeze_n(log_t).squeeze(),
    ).0->Ok_0.0;
    booleanity::lemma_reduced(acc, xs, accepted);
    booleanity::lemma_reduced(acc, xs, evals);
    field::lemma_weighted_apart(
        w,
        booleanity::batch(powers, accepted),
        booleanity::batch(powers, evals),
    );
}

/// Where one proof is accepted, another with the same Spartan and memory proofs and as many
/// different auxiliary openings is refused by the booleanity check, unless their weight cancels the
/// difference of the batches.
pub proof fn law_changed_binary_aux_refused<F: Field>(
    accepted: BinaryClaims<F>,
    proof: BinaryClaims<F>,
    key: R1csKey<F>,
    log_t: nat,
    ram_log_k: nat,
    reg_log_k: nat,
    public: PublicColumns<F>,
    acc: Claims<F>,
    s: FsState<F>,
)
    requires
        verdict(accepted, key, log_t, ram_log_k, reg_log_k, public, acc, s).0 is Ok,
        proof.spartan == accepted.spartan,
        proof.memory == accepted.memory,
        proof.aux.len() == accepted.aux.len() <= usize::MAX,
        ({
            let (r1, acc1, s1) = spartan_stage::verdict(accepted.spartan, key, acc, s);
            let s2 = memory::verdict(
                accepted.memory,
                log_t,
                ram_log_k,
                reg_log_k,
                public,
                acc1,
                s1,
            ).2;
            let (g, w) = aux_weight(log_t, s2);
            let powers = booleanity::even_powers(g, accepted.aux.len());
            w.times(
                booleanity::batch(powers, proof.aux).minus(booleanity::batch(powers, accepted.aux)),
            ) != F::of_int(0)
        }),
    ensures
        verdict(proof, key, log_t, ram_log_k, reg_log_k, public, acc, s).0 == Err::<
            (),
            DriverError,
        >(DriverError::Booleanity),
{
    let (r1, acc1, s1) = spartan_stage::verdict(accepted.spartan, key, acc, s);
    let (r2, acc2, s2) = memory::verdict(
        accepted.memory,
        log_t,
        ram_log_k,
        reg_log_k,
        public,
        acc1,
        s1,
    );
    law_changed_aux_refused(accepted.aux, proof.aux, log_t, acc2, s2);
}

/// Sign and carry columns that are not all bits are refused by the booleanity check, unless the
/// factor by which the rounds carry the wrong claim cancels what the sum should not have been.
pub proof fn law_aux_not_boolean_refused<F: Field>(
    w: R1csWitness<F>,
    acc: Claims<F>,
    p: FsState<F>,
    v: FsState<F>,
    whole: Seq<F>,
)
    requires
        forall|c: int| 0 <= c < w.aux_columns().len() ==> field::all_valid(#[trigger] w.aux_columns()[c]),
        p.canonical(),
        gruen::invertible(p.coins(w.log_num_cycles as nat)),
        transcript::synced(p, v, whole),
        honest_aux(w, acc, p).2.tape.is_prefix_of(whole),
        ({
            let n = w.log_num_cycles as nat;
            let p1 = p.squeeze_n(n);
            let tab = aux_table(w, p.coins(n), p1.next());
            let xs = gruen::claimed_run(tab, p.coins(n), F::of_int(0), p1.squeeze()).0;
            F::of_int(0).minus(tab.total()).times(gruen::carried(p.coins(n), xs)) != F::of_int(0)
        }),
    ensures
        verdict_aux(honest_aux(w, acc, p).0, w.log_num_cycles as nat, acc, v).0 == Err::<
            (),
            DriverError,
        >(DriverError::Booleanity),
{
    let n = w.log_num_cycles as nat;
    let r = p.coins(n);
    let p1 = p.squeeze_n(n);
    let v1 = v.squeeze_n(n);
    transcript::lemma_coins_len(p, n);
    transcript::lemma_synced_squeeze_n(p, v, whole, n);
    transcript::lemma_synced_squeeze(p1, v1, whole);
    let cols = w.aux_columns();
    let g = p1.next();
    let powers = booleanity::even_powers(g, cols.len());
    let tab = aux_table(w, r, g);
    assert(field::all_valid(powers)) by {
        assert forall|i: int| 0 <= i < powers.len() implies (#[trigger] powers[i]).valid() by {
            sums::lemma_power_valid(g.times(g), i);
        }
    }
    booleanity::law_mismatch(powers, r, cols, acc, p1.squeeze(), v1.squeeze(), whole);
    booleanity::law_table_shaped(powers, r, cols);
    let xs = gruen::claimed_run(tab, r, F::of_int(0), p1.squeeze()).0;
    gruen::lemma_run_extends(tab, r, F::of_int(0), p1.squeeze());
    sumcheck::lemma_bound_columns(tab, xs);
    let evals = sumcheck::bound_row(tab.columns, xs).skip(1);
    assert(evals =~= cols.map_values(|c: Seq<F>| poly::mle(c, xs.reverse()))) by {
        assert forall|i: int| 0 <= i < cols.len() implies #[trigger] evals[i] == poly::mle(
            cols[i],
            xs.reverse(),
        ) by {
            assert(tab.columns[i + 1] == cols[i]);
        }
    }
    let miss = F::of_int(0).minus(tab.total()).times(gruen::carried(r, xs));
    F::law_valid(F::of_int(0).minus(tab.total()), gruen::carried(r, xs));
    let acc1 = booleanity::cached(acc, xs, evals, evals.len() as int);
    field::lemma_sum_moves(booleanity::output(powers, r, acc1, xs), miss);
}

/// A sign or carry column that is zero in every cycle has a zero claim.
pub proof fn law_zero_column_claim<F: Field>(
    w: R1csWitness<F>,
    acc: Claims<F>,
    s: FsState<F>,
    i: int,
)
    requires
        forall|c: int| 0 <= c < w.aux_columns().len() ==> field::all_valid(#[trigger] w.aux_columns()[c]),
        s.canonical(),
        0 <= i < w.aux_columns().len(),
        forall|x: int|
            0 <= x < pow2(w.log_num_cycles as nat) ==> #[trigger] w.aux_columns()[i][x]
                == F::of_int(0),
    ensures
        honest_aux(w, acc, s).0[i] == F::of_int(0),
{
    let n = w.log_num_cycles as nat;
    let r = s.coins(n);
    let s1 = s.squeeze_n(n);
    transcript::lemma_coins_len(s, n);
    let cols = w.aux_columns();
    let g = s1.next();
    let powers = booleanity::even_powers(g, cols.len());
    let tab = aux_table(w, r, g);
    assert(field::all_valid(powers)) by {
        assert forall|k: int| 0 <= k < powers.len() implies (#[trigger] powers[k]).valid() by {
            sums::lemma_power_valid(g.times(g), k);
        }
    }
    booleanity::law_table_shaped(powers, r, cols);
    let xs = gruen::claimed_run(tab, r, F::of_int(0), s1.squeeze()).0;
    gruen::lemma_run_extends(tab, r, F::of_int(0), s1.squeeze());
    sumcheck::lemma_bound_columns(tab, xs);
    assert(tab.columns[i + 1] == cols[i]);
    ram_stage::lemma_mle_zeros(cols[i], xs.reverse());
}

/// How many elements the rounds of the Spartan and memory stages have.
pub open spec fn stages_read<F: Field>(
    proof: BinaryClaims<F>,
    key: R1csKey<F>,
    log_t: nat,
    ram_log_k: nat,
    reg_log_k: nat,
    acc: Claims<F>,
    s: FsState<F>,
) -> nat {
    let s1 = spartan_stage::verdict(proof.spartan, key, acc, s).2;
    spartan_stage::stage_read(key) + memory::stage_read(
        proof.memory,
        log_t,
        ram_log_k,
        reg_log_k,
        s1,
    )
}

/// How many elements the rounds of all stages have.
pub open spec fn rounds_read<F: Field>(
    proof: BinaryClaims<F>,
    key: R1csKey<F>,
    log_t: nat,
    ram_log_k: nat,
    reg_log_k: nat,
    acc: Claims<F>,
    s: FsState<F>,
) -> nat {
    stages_read(proof, key, log_t, ram_log_k, reg_log_k, acc, s) + log_t * (booleanity::DEGREE as nat
        + 1)
}

/// Accepted auxiliary openings are refused when any one element of the rounds of the booleanity check
/// is changed.
pub proof fn law_changed_aux_round_refused<F: Field>(
    evals: Seq<F>,
    log_t: nat,
    acc: Claims<F>,
    s: FsState<F>,
    j: int,
    delta: F,
)
    requires
        verdict_aux(evals, log_t, acc, s).0 is Ok,
        0 <= j < log_t * (booleanity::DEGREE as nat + 1),
        delta.valid(),
        delta != F::of_int(0),
    ensures
        verdict_aux(evals, log_t, acc, sumcheck::changed(s, j, delta)).0 == Err::<(), DriverError>(
            DriverError::Booleanity,
        ),
{
    let s1 = s.squeeze_n(log_t);
    sumcheck::lemma_changed_coins(s, j, delta, log_t);
    assert(sumcheck::changed(s1, j, delta).squeeze() == sumcheck::changed(s1.squeeze(), j, delta));
    sumcheck::law_changed_round_refused(
        F::of_int(0),
        Seq::empty(),
        log_t,
        booleanity::DEGREE as nat,
        s1.squeeze(),
        j,
        delta,
    );
}

/// An accepted proof is refused when any one element of its rounds is changed, with the error of the
/// stage that reads it.
pub proof fn law_changed_round_refused<F: Field>(
    proof: BinaryClaims<F>,
    key: R1csKey<F>,
    log_t: nat,
    ram_log_k: nat,
    reg_log_k: nat,
    public: PublicColumns<F>,
    acc: Claims<F>,
    s: FsState<F>,
    j: int,
    delta: F,
)
    requires
        verdict(proof, key, log_t, ram_log_k, reg_log_k, public, acc, s).0 is Ok,
        0 <= j < rounds_read(proof, key, log_t, ram_log_k, reg_log_k, acc, s),
        j < s.tape.len(),
        delta.valid(),
        delta != F::of_int(0),
    ensures
        verdict(
            proof,
            key,
            log_t,
            ram_log_k,
            reg_log_k,
            public,
            acc,
            sumcheck::changed(s, j, delta),
        ).0 == Err::<(), DriverError>(
            if j < spartan_stage::stage_read(key) {
                DriverError::Spartan(SpartanStageError::Sumcheck)
            } else if j < stages_read(proof, key, log_t, ram_log_k, reg_log_k, acc, s) {
                let (r1, acc1, s1) = spartan_stage::verdict(proof.spartan, key, acc, s);
                DriverError::Memory(
                    memory::verdict(
                        proof.memory,
                        log_t,
                        ram_log_k,
                        reg_log_k,
                        public,
                        acc1,
                        sumcheck::changed(s1, j - spartan_stage::stage_read(key), delta),
                    ).0->Err_0,
                )
            } else {
                DriverError::Booleanity
            },
        ),
{
    let first = spartan_stage::stage_read(key);
    if j < first {
        spartan_stage::law_changed_round_refused(proof.spartan, key, acc, s, j, delta);
    } else {
        let (r1, acc1, s1) = spartan_stage::verdict(proof.spartan, key, acc, s);
        spartan_stage::lemma_changed_later(proof.spartan, key, acc, s, j, delta);
        let k = j - first;
        let second = memory::stage_read(proof.memory, log_t, ram_log_k, reg_log_k, s1);
        if k < second {
            memory::law_changed_round_refused(
                proof.memory,
                log_t,
                ram_log_k,
                reg_log_k,
                public,
                acc1,
                s1,
                k,
                delta,
            );
        } else {
            let (r2, acc2, s2) = memory::verdict(
                proof.memory,
                log_t,
                ram_log_k,
                reg_log_k,
                public,
                acc1,
                s1,
            );
            memory::lemma_changed_later(
                proof.memory,
                log_t,
                ram_log_k,
                reg_log_k,
                public,
                acc1,
                s1,
                k,
                delta,
            );
            law_changed_aux_round_refused(proof.aux, log_t, acc2, s2, k - second, delta);
        }
    }
}

/// The whole run between fresh parties with one label: the proof of a satisfied constraint system, of
/// simulated memory and registers, and of sign and carry columns of bits is accepted, the verifier
/// reads all of it, and both parties record the same claims.
pub proof fn law_round_trip<F: Field>(
    w: R1csWitness<F>,
    ram: RamWitness<F>,
    reg: RegisterWitness<F>,
    trace: Seq<CycleRow>,
    remapped: Seq<CycleRow>,
    ram_k: nat,
    reg_k: nat,
    public: PublicColumns<F>,
    key: R1csKey<F>,
    label: Seq<u8>,
)
    requires
        w.belongs_to(key),
        w.satisfied(),
        field::all_valid(w.z@),
        aux_boolean(w),
        ram.simulates(remapped, ram_k),
        ram_witness::addresses_fit(remapped, ram_k as int),
        reg.simulates(trace, reg_k),
        registers_witness::registers_fit(trace, reg_k as int),
        ram.log_t == reg.log_t,
        ram.log_t == w.log_num_cycles,
        public.sized(ram.log_k as nat),
        public.canonical(),
        ram_stage::output_holds(ram, public),
    ensures
        ({
            let none = Map::<OpeningId, (Seq<F>, F)>::empty();
            let p0 = transcript::fresh(label, Seq::empty());
            let (claims, recorded, p) = honest(w, ram, reg, public, key, none, p0);
            let (r, acc, v) = verdict(
                claims,
                key,
                w.log_num_cycles as nat,
                ram.log_k as nat,
                reg.log_k as nat,
                public,
                none,
                transcript::fresh(label, p.tape),
            );
            &&& r is Ok
            &&& acc == recorded
            &&& v.tape.len() == 0
        }),
{
    let none = Map::<OpeningId, (Seq<F>, F)>::empty();
    let p0 = transcript::fresh::<F>(label, Seq::empty());
    let p = honest(w, ram, reg, public, key, none, p0).2;
    let v = transcript::fresh(label, p.tape);
    transcript::law_fresh(label, p.tape);
    law_complete(w, ram, reg, trace, remapped, ram_k, reg_k, public, key, none, p0, v, p.tape);
}

/// The claims that an honest binary proof leaves to the commitment scheme are true of the columns that
/// their names say: the increment claims of the memory and of the register increments, and the claims
/// of the sign and carry columns of those variables of the assignment, in their order.
pub proof fn law_named_claims<F: Field>(
    w: R1csWitness<F>,
    ram: RamWitness<F>,
    reg: RegisterWitness<F>,
    trace: Seq<CycleRow>,
    remapped: Seq<CycleRow>,
    ram_k: nat,
    reg_k: nat,
    public: PublicColumns<F>,
    key: R1csKey<F>,
    acc: Claims<F>,
    p: FsState<F>,
)
    requires
        aux_boolean(w),
        ram.simulates(remapped, ram_k),
        ram_witness::addresses_fit(remapped, ram_k as int),
        reg.simulates(trace, reg_k),
        registers_witness::registers_fit(trace, reg_k as int),
        ram.log_t == reg.log_t,
        public.sized(ram.log_k as nat),
        public.canonical(),
        p.canonical(),
    ensures
        ({
            let (claims, acc1, p1) = honest(w, ram, reg, public, key, acc, p);
            let told = |id: OpeningId, column: Seq<F>, vars: nat|
                acc1.contains_key(id) && acc1[id].0.len() == vars && acc1[id].1 == poly::mle(
                    column,
                    acc1[id].0,
                );
            let signs_and_carries = seq![
                LEFT_SIGN as int,
                RIGHT_SIGN as int,
                PRODUCT_SIGN as int,
                SIGN_PROD as int,
                ADD_C0 as int,
                SUB_C0 as int,
                SUB_C1 as int,
                RAM_ADDR_C0 as int,
            ];
            &&& told(
                OpeningId::Committed(CommittedPolynomial::RamInc, SumcheckId::IncClaimReduction),
                ram.inc@,
                ram.log_t as nat,
            )
            &&& told(
                OpeningId::Committed(CommittedPolynomial::RdInc, SumcheckId::IncClaimReduction),
                reg.inc@,
                reg.log_t as nat,
            )
            &&& claims.aux.len() == 8
            &&& forall|i: int|
                #![trigger signs_and_carries[i]]
                0 <= i < 8 ==> told(
                    OpeningId::Committed(
                        CommittedPolynomial::R1csAux(i as usize),
                        SumcheckId::Booleanity,
                    ),
                    Seq::new(
                        pow2(w.log_num_cycles as nat),
                        |c: int| w.z@[c * w.num_vars_padded + signs_and_carries[i]],
                    ),
                    w.log_num_cycles as nat,
                )
            &&& p1.canonical()
            &&& p.tape.is_prefix_of(p1.tape)
        }),
{
    let n = w.log_num_cycles as nat;
    let (c1, acc1, p1) = spartan_stage::honest(w, key, acc, p);
    let (c2, acc2, p2) = memory::honest(ram, reg, public, acc1, p1);
    spartan_stage::lemma_honest_extends(w, key, acc, p);
    memory::lemma_honest_extends(ram, reg, public, acc1, p1);
    memory::law_named_claims(
        ram,
        reg,
        trace,
        remapped,
        ram_k,
        reg_k,
        public,
        acc1,
        p1,
    );
    lemma_aux_told(w, acc2, p2);
    let acc3 = honest_aux(w, acc2, p2).1;
    let rd = OpeningId::Committed(CommittedPolynomial::RdInc, SumcheckId::IncClaimReduction);
    let words = OpeningId::Committed(CommittedPolynomial::RamInc, SumcheckId::IncClaimReduction);
    assert(accumulator::kept(acc2, acc3, rd));
    assert(accumulator::kept(acc2, acc3, words));
    let vars = seq![
        LEFT_SIGN as int,
        RIGHT_SIGN as int,
        PRODUCT_SIGN as int,
        SIGN_PROD as int,
        ADD_C0 as int,
        SUB_C0 as int,
        SUB_C1 as int,
        RAM_ADDR_C0 as int,
    ];
    assert forall|i: int|
        #![trigger vars[i]]
        0 <= i < 8 implies accumulator::opens(
        acc3,
        OpeningId::Committed(CommittedPolynomial::R1csAux(i as usize), SumcheckId::Booleanity),
        Seq::new(pow2(n), |c: int| w.z@[c * w.num_vars_padded + vars[i]]),
        n,
    ) by {
        assert(vars =~= r1cs_witness::aux_vars());
        assert(w.aux_columns()[i] =~= Seq::new(
            pow2(n),
            |c: int| w.z@[c * w.num_vars_padded + vars[i]],
        ));
    }
    transcript::lemma_prefix_trans(p.tape, p1.tape, p2.tape);
    transcript::lemma_prefix_trans(p.tape, p2.tape, honest_aux(w, acc2, p2).2.tape);
}

/// The booleanity check leaves true claims of the sign and carry columns, and keeps the others.
proof fn lemma_aux_told<F: Field>(w: R1csWitness<F>, acc: Claims<F>, p: FsState<F>)
    requires
        aux_boolean(w),
        p.canonical(),
    ensures
        ({
            let (evals, acc1, p1) = honest_aux(w, acc, p);
            &&& evals.len() == 8
            &&& forall|i: int|
                0 <= i < 8 ==> accumulator::opens(
                    acc1,
                    booleanity::reduced_id(i),
                    #[trigger] w.aux_columns()[i],
                    w.log_num_cycles as nat,
                )
            &&& forall|id: OpeningId|
                (id matches OpeningId::Committed(q, _) ==> !(q is R1csAux))
                    ==> #[trigger] accumulator::kept(acc, acc1, id)
            &&& p1.canonical()
            &&& p.tape.is_prefix_of(p1.tape)
        }),
{
    let n = w.log_num_cycles as nat;
    let r = p.coins(n);
    let p1 = p.squeeze_n(n);
    transcript::lemma_coins_len(p, n);
    let cols = w.aux_columns();
    let g = p1.next();
    let powers = booleanity::even_powers(g, cols.len());
    let tab = aux_table(w, r, g);
    assert(field::all_valid(powers)) by {
        assert forall|i: int| 0 <= i < powers.len() implies (#[trigger] powers[i]).valid() by {
            sums::lemma_power_valid(g.times(g), i);
        }
    }
    assert forall|c: int| 0 <= c < cols.len() implies field::all_valid(#[trigger] cols[c]) by {
        assert forall|x: int| 0 <= x < cols[c].len() implies (#[trigger] cols[c][x]).valid() by {
            F::law_of_int_valid(0);
            F::law_of_int_valid(1);
        }
    }
    booleanity::law_table_shaped(powers, r, cols);
    booleanity::law_total(powers, r, cols);
    gruen::law_true_claim(tab, r, F::of_int(0), p1.squeeze());
    gruen::lemma_run_extends(tab, r, F::of_int(0), p1.squeeze());
    let (xs, p2) = sumcheck::prove_run(tab, n, p1.squeeze());
    sumcheck::lemma_run_extends(tab, n, p1.squeeze());
    sumcheck::lemma_bound_columns(tab, xs);
    let evals = sumcheck::bound_row(tab.columns, xs).skip(1);
    assert forall|i: int| 0 <= i < 8 implies accumulator::opens(
        booleanity::cached(acc, xs, evals, 8),
        booleanity::reduced_id(i),
        #[trigger] cols[i],
        n,
    ) by {
        booleanity::lemma_cached(acc, xs, evals, 8, i);
        assert(tab.columns[i + 1] == cols[i]);
    }
    lemma_cached_keeps(acc, xs, evals, 8);
}

proof fn lemma_cached_keeps<F: Field>(acc: Claims<F>, xs: Seq<F>, v: Seq<F>, n: int)
    ensures
        forall|id: OpeningId|
            (id matches OpeningId::Committed(q, _) ==> !(q is R1csAux))
                ==> #[trigger] accumulator::kept(acc, booleanity::cached(acc, xs, v, n), id),
    decreases n,
{
    if n > 0 {
        lemma_cached_keeps(acc, xs, v, n - 1);
        assert forall|id: OpeningId|
            (id matches OpeningId::Committed(q, _) ==> !(q is R1csAux))
            implies #[trigger] accumulator::kept(acc, booleanity::cached(acc, xs, v, n), id) by {
            assert(accumulator::kept(acc, booleanity::cached(acc, xs, v, n - 1), id));
        }
    }
}

} // verus!
