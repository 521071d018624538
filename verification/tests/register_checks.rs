use jolt_goldilocks::field::Field;
use jolt_goldilocks::framework::accumulator::{
    CommittedPolynomial, Openings, SumcheckId, VirtualPolynomial,
};
use jolt_goldilocks::framework::poly;
use jolt_goldilocks::framework::sumcheck::{prove, verify, SumcheckClaim};
use jolt_goldilocks::framework::transcript::{ProverTranscript, VerifierTranscript};
use jolt_goldilocks::goldilocks::Goldilocks;
use jolt_goldilocks::zkvm::registers::read_write_checking::{
    RegistersReadWriteChecking, RegistersReadWriteCheckingParams,
};
use jolt_goldilocks::zkvm::registers::stage::{
    prove_registers, verify_registers, RegistersStageError,
};
use jolt_goldilocks::zkvm::registers::val_evaluation::{
    RegistersValEvaluation, RegistersValEvaluationParams,
};
use jolt_goldilocks::zkvm::registers::witness::register_witness;
use jolt_goldilocks::zkvm::trace::{CircuitFlagSet, CycleRow, InstructionFlagSet};

type F = Goldilocks;

struct Rng(u64);
impl Rng {
    fn next(&mut self) -> u64 {
        self.0 = self.0.wrapping_add(0x9E37_79B9_7F4A_7C15);
        let mut z = self.0;
        z = (z ^ (z >> 30)).wrapping_mul(0xBF58_476D_1CE4_E5B9);
        z = (z ^ (z >> 27)).wrapping_mul(0x94D0_49BB_1331_11EB);
        z ^ (z >> 31)
    }
}

fn rand_vec(rng: &mut Rng, n: usize) -> Vec<F> {
    (0..n).map(|_| F::from_u64(rng.next())).collect()
}

fn dot(poly: &[F], eq: &[F]) -> F {
    poly.iter()
        .zip(eq.iter())
        .fold(F::from_u64(0), |a, (p, e)| a.add(p.mul(*e)))
}

fn reversed(xs: &[F]) -> Vec<F> {
    xs.iter().rev().copied().collect()
}

fn cat(a: &[F], b: &[F]) -> Vec<F> {
    [a, b].concat()
}

/// The constraints of one cycle that the sample rows exercise.

fn add_row(unexpanded_pc: u64, left: u64, right: u64) -> CycleRow {
    let mut circuit_flags = CircuitFlagSet::none();
    circuit_flags.add_operands = true;
    let mut instruction_flags = InstructionFlagSet::none();
    instruction_flags.left_operand_is_rs1_value = true;
    instruction_flags.right_operand_is_rs2_value = true;
    CycleRow {
        is_noop: false,
        unexpanded_pc,
        rs1_read: Some((1, left)),
        rs2_read: Some((2, right)),
        rd_write: None,
        ram_access_address: None,
        ram_read_value: None,
        ram_write_value: None,
        imm: 0,
        circuit_flags,
        instruction_flags,
        lookup_index: 0,
        lookup_output: left.wrapping_add(right),
        lookup_table: None,
    }
}

fn with_rd(mut row: CycleRow, rd: u8, pre: u64, post: u64) -> CycleRow {
    row.rd_write = Some((rd, pre, post));
    row
}

fn with_reads(mut row: CycleRow, rs1: Option<u8>, rs2: Option<u8>) -> CycleRow {
    row.rs1_read = rs1.map(|r| (r, 0));
    row.rs2_read = rs2.map(|r| (r, 0));
    row
}

fn claim_of(num_vars: usize, degree: usize, claimed_sum: F) -> SumcheckClaim<F> {
    SumcheckClaim {
        num_vars,
        degree,
        claimed_sum,
    }
}

const VALUE_KEYS: [VirtualPolynomial; 3] = [
    VirtualPolynomial::RdWriteValue,
    VirtualPolynomial::Rs1Value,
    VirtualPolynomial::Rs2Value,
];

// Read-write checking.

struct ReadWriteCase {
    ra1: Vec<F>,
    ra2: Vec<F>,
    wa: Vec<F>,
    val: Vec<F>,
    inc: Vec<F>,
    r_cycle: Vec<F>,
}

fn read_write_case(rng: &mut Rng, log_k: usize, log_t: usize) -> ReadWriteCase {
    let t = 1usize << log_t;
    let n = t << log_k;
    let ra1 = rand_vec(rng, n);
    let ra2 = rand_vec(rng, n);
    let wa = rand_vec(rng, n);
    let val = rand_vec(rng, n);
    let inc = rand_vec(rng, t);
    let r_cycle = rand_vec(rng, log_t);
    ReadWriteCase {
        ra1,
        ra2,
        wa,
        val,
        inc,
        r_cycle,
    }
}

fn seed_components(acc: &mut Openings<F>, case: &ReadWriteCase) {
    let t = case.inc.len();
    let eq_cycle = poly::eq_evals(&case.r_cycle);
    let mut values = [F::from_u64(0); 3];
    for idx in 0..case.val.len() {
        let j = idx % t;
        let val = case.val[idx];
        let terms = [
            case.wa[idx].mul(val.add(case.inc[j])),
            case.ra1[idx].mul(val),
            case.ra2[idx].mul(val),
        ];
        for (value, term) in values.iter_mut().zip(terms) {
            *value = value.add(eq_cycle[j].mul(term));
        }
    }
    for (poly, value) in VALUE_KEYS.iter().zip(values) {
        acc.append_virtual(
            *poly,
            SumcheckId::RegistersClaimReduction,
            case.r_cycle.clone(),
            value,
        );
    }
}

fn carry_read_write(from: &Openings<F>, to: &mut Openings<F>) {
    let id = SumcheckId::RegistersReadWriteChecking;
    for poly in [
        VirtualPolynomial::RegistersVal,
        VirtualPolynomial::Rs1Ra,
        VirtualPolynomial::Rs2Ra,
        VirtualPolynomial::RdWa,
    ] {
        let (pt, c) = from.get_virtual_polynomial_opening(poly, id);
        to.append_virtual(poly, id, pt, c);
    }
    let (pt, c) = from.get_committed_polynomial_opening(CommittedPolynomial::RdInc, id);
    to.append_dense(CommittedPolynomial::RdInc, id, pt, c);
}

fn read_write_round_trip(seed: u64, log_k: usize, log_t: usize) {
    let mut rng = Rng(seed);
    let case = read_write_case(&mut rng, log_k, log_t);
    let rounds = log_k + log_t;

    let mut prover_acc = Openings::<F>::new(log_t);
    seed_components(&mut prover_acc, &case);
    let mut prover_t = ProverTranscript::<F>::new(b"registers-rw-checking");
    let params = RegistersReadWriteCheckingParams::new(&prover_acc, log_k, &mut prover_t);
    let input_claim = params.input_claim(&prover_acc);
    let mut prover = RegistersReadWriteChecking::new_prover(
        params,
        case.ra1.clone(),
        case.ra2.clone(),
        case.wa.clone(),
        case.val.clone(),
        case.inc.clone(),
    );
    let challenges = prove(&mut prover.sum, rounds, &mut prover_t);
    prover.cache_openings(&mut prover_acc, &challenges);
    let narg = prover_t.into_proof();

    let mut verifier_acc = Openings::<F>::new(log_t);
    seed_components(&mut verifier_acc, &case);
    let mut verifier_t = VerifierTranscript::<F>::new(b"registers-rw-checking", narg);
    let vparams = RegistersReadWriteCheckingParams::new(&verifier_acc, log_k, &mut verifier_t);
    let verifier = RegistersReadWriteChecking::new_verifier(vparams);
    let eval = verify(&claim_of(rounds, 3, input_claim), &mut verifier_t)
        .expect("rw-checking must verify");
    assert_eq!(eval.point, challenges);
    carry_read_write(&prover_acc, &mut verifier_acc);
    let expected = verifier.expected_output_claim(&verifier_acc, &challenges);
    assert_eq!(eval.value, expected);

    let eq_rho = poly::eq_evals(&reversed(&eval.point));
    for (poly, matrix) in [
        (VirtualPolynomial::Rs1Ra, &case.ra1),
        (VirtualPolynomial::Rs2Ra, &case.ra2),
    ] {
        let (_, claim) =
            prover_acc.get_virtual_polynomial_opening(poly, SumcheckId::RegistersReadWriteChecking);
        assert_eq!(claim, dot(matrix, &eq_rho));
    }
}

#[test]
fn registers_rw_checking_round_trip() {
    read_write_round_trip(0x7700, 2, 2);
    read_write_round_trip(0x7701, 3, 3);
    read_write_round_trip(0x7702, 2, 5);
    read_write_round_trip(0x7703, 4, 3);
}

#[test]
fn registers_read_write_checking_tampered_proof_rejected() {
    let (log_k, log_t) = (3, 3);
    let mut rng = Rng(0x77FE);
    let case = read_write_case(&mut rng, log_k, log_t);
    let mut acc = Openings::<F>::new(log_t);
    seed_components(&mut acc, &case);
    let mut prover_t = ProverTranscript::<F>::new(b"t");
    let params = RegistersReadWriteCheckingParams::new(&acc, log_k, &mut prover_t);
    let input_claim = params.input_claim(&acc);
    let mut prover = RegistersReadWriteChecking::new_prover(
        params, case.ra1, case.ra2, case.wa, case.val, case.inc,
    );
    let _ = prove(&mut prover.sum, log_k + log_t, &mut prover_t);
    let mut narg = prover_t.into_proof();
    narg[0] = narg[0].add(F::from_u64(1));
    let mut verifier_t = VerifierTranscript::<F>::new(b"t", narg);
    let _ = RegistersReadWriteCheckingParams::new(&acc, log_k, &mut verifier_t);
    assert!(verify(&claim_of(log_k + log_t, 3, input_claim), &mut verifier_t).is_err());
}

// The value evaluation.

struct ValueCase {
    inc: Vec<F>,
    wa: Vec<F>,
    point: Vec<F>,
    value: F,
}

fn value_case(rng: &mut Rng, log_k: usize, log_t: usize) -> ValueCase {
    let k = 1usize << log_k;
    let t = 1usize << log_t;
    let inc = rand_vec(rng, t);
    let r_address = rand_vec(rng, log_k);
    let r_cycle = rand_vec(rng, log_t);
    let eq_address = poly::eq_evals(&r_address);
    let wa: Vec<F> = (0..t)
        .map(|_| eq_address[(rng.next() as usize) % k])
        .collect();
    let lt_table = poly::lt_evals(&r_cycle);
    let value = (0..t).fold(F::from_u64(0), |acc, j| {
        acc.add(inc[j].mul(wa[j]).mul(lt_table[j]))
    });
    ValueCase {
        inc,
        wa,
        point: cat(&r_address, &r_cycle),
        value,
    }
}

fn seed_value(acc: &mut Openings<F>, case: &ValueCase) {
    acc.append_virtual(
        VirtualPolynomial::RegistersVal,
        SumcheckId::RegistersReadWriteChecking,
        case.point.clone(),
        case.value,
    );
}

fn value_round_trip(seed: u64, log_k: usize, log_t: usize) {
    let mut rng = Rng(seed);
    let case = value_case(&mut rng, log_k, log_t);

    let mut prover_acc = Openings::<F>::new(log_t);
    seed_value(&mut prover_acc, &case);
    let params = RegistersValEvaluationParams::new(&prover_acc, log_k);
    let input_claim = RegistersValEvaluationParams::<F>::input_claim(&prover_acc);
    let mut prover = RegistersValEvaluation::new_prover(params, case.inc.clone(), case.wa.clone());
    let mut prover_t = ProverTranscript::<F>::new(b"registers-val-evaluation");
    let challenges = prove(&mut prover.sum, log_t, &mut prover_t);
    prover.cache_openings(&mut prover_acc, &challenges);
    let narg = prover_t.into_proof();

    let mut verifier_acc = Openings::<F>::new(log_t);
    seed_value(&mut verifier_acc, &case);
    let vparams = RegistersValEvaluationParams::new(&verifier_acc, log_k);
    let verifier = RegistersValEvaluation::new_verifier(vparams);
    let mut verifier_t = VerifierTranscript::<F>::new(b"registers-val-evaluation", narg);
    let eval = verify(&claim_of(log_t, 3, input_claim), &mut verifier_t)
        .expect("val-evaluation must verify");
    assert_eq!(eval.point, challenges);

    let id = SumcheckId::RegistersValEvaluation;
    let (_, inc_rho) = prover_acc.get_committed_polynomial_opening(CommittedPolynomial::RdInc, id);
    let (wa_pt, wa_rho) = prover_acc.get_virtual_polynomial_opening(VirtualPolynomial::RdWa, id);
    verifier_acc.append_dense(CommittedPolynomial::RdInc, id, eval.point.clone(), inc_rho);
    verifier_acc.append_virtual(VirtualPolynomial::RdWa, id, wa_pt, wa_rho);
    let expected = verifier.expected_output_claim(&verifier_acc, &challenges);
    assert_eq!(eval.value, expected);

    let eq_rho = poly::eq_evals(&reversed(&eval.point));
    assert_eq!(inc_rho, dot(&case.inc, &eq_rho));
    assert_eq!(wa_rho, dot(&case.wa, &eq_rho));
}

#[test]
fn registers_val_evaluation_round_trip() {
    for log_t in 1..=8 {
        value_round_trip(0x5A00 + log_t as u64, 3, log_t);
    }
}

#[test]
fn val_evaluation_tampered_proof_rejected() {
    let (log_k, log_t) = (2, 4);
    let mut rng = Rng(0x5AFE);
    let case = value_case(&mut rng, log_k, log_t);
    let mut acc = Openings::<F>::new(log_t);
    seed_value(&mut acc, &case);
    let params = RegistersValEvaluationParams::new(&acc, log_k);
    let input_claim = RegistersValEvaluationParams::<F>::input_claim(&acc);
    let mut prover = RegistersValEvaluation::new_prover(params, case.inc, case.wa);
    let mut prover_t = ProverTranscript::<F>::new(b"t");
    let _ = prove(&mut prover.sum, log_t, &mut prover_t);
    let mut narg = prover_t.into_proof();
    for (i, value) in (1u64..=4).enumerate() {
        narg[i] = F::from_u64(value);
    }
    let mut verifier_t = VerifierTranscript::<F>::new(b"t", narg);
    assert!(verify(&claim_of(log_t, 3, input_claim), &mut verifier_t).is_err());
}

// The matrices of a trace.

fn register_trace() -> Vec<CycleRow> {
    vec![
        with_rd(add_row(0, 0, 0), 3, 0, 5),
        with_rd(with_reads(add_row(4, 0, 0), Some(3), Some(0)), 4, 0, 9),
        with_rd(with_reads(add_row(8, 0, 0), Some(3), Some(4)), 3, 5, 14),
        CycleRow::noop_at(12),
    ]
}

#[test]
fn register_witness_satisfies_read_write_checking() {
    let w = register_witness::<F>(&register_trace(), 8);
    assert_eq!(w.log_k, 3);
    assert_eq!(w.log_t, 2);

    let mut rng = Rng(0xA17E);
    let r_cycle = rand_vec(&mut rng, w.log_t);
    let eq = poly::eq_evals(&r_cycle);
    let rd_wv = dot(&w.rd_write_value, &eq);
    let rs1 = dot(&w.rs1_value, &eq);
    let rs2 = dot(&w.rs2_value, &eq);
    let seed = |acc: &mut Openings<F>| {
        for (poly, value) in VALUE_KEYS.iter().zip([rd_wv, rs1, rs2]) {
            acc.append_virtual(
                *poly,
                SumcheckId::RegistersClaimReduction,
                r_cycle.clone(),
                value,
            );
        }
    };

    let rounds = w.log_k + w.log_t;
    let mut prover_acc = Openings::<F>::new(w.log_t);
    seed(&mut prover_acc);
    let mut prover_t = ProverTranscript::<F>::new(b"reg-witness-rw");
    let params = RegistersReadWriteCheckingParams::new(&prover_acc, w.log_k, &mut prover_t);
    let input_claim = rd_wv.add(params.gamma.mul(rs1.add(params.gamma.mul(rs2))));
    let mut prover = RegistersReadWriteChecking::new_prover(
        params,
        w.ra1.clone(),
        w.ra2.clone(),
        w.wa.clone(),
        w.val.clone(),
        w.inc.clone(),
    );
    let challenges = prove(&mut prover.sum, rounds, &mut prover_t);
    prover.cache_openings(&mut prover_acc, &challenges);
    let narg = prover_t.into_proof();

    let mut verifier_acc = Openings::<F>::new(w.log_t);
    seed(&mut verifier_acc);
    let mut verifier_t = VerifierTranscript::<F>::new(b"reg-witness-rw", narg);
    let vparams = RegistersReadWriteCheckingParams::new(&verifier_acc, w.log_k, &mut verifier_t);
    let verifier = RegistersReadWriteChecking::new_verifier(vparams);
    let eval = verify(&claim_of(rounds, 3, input_claim), &mut verifier_t)
        .expect("materialized register witness must satisfy read-write-checking");
    assert_eq!(eval.point, challenges);
    carry_read_write(&prover_acc, &mut verifier_acc);
    assert_eq!(
        eval.value,
        verifier.expected_output_claim(&verifier_acc, &challenges)
    );
}

#[test]
fn registers_witness_read_before_write_snapshot() {
    let w = register_witness::<F>(&register_trace(), 8);
    let t = 1usize << w.log_t;
    assert_eq!(w.rs1_value[2], F::from_u64(5));
    assert_eq!(w.val[3 * t + 2], F::from_u64(5));
    assert_eq!(w.val[3 * t + 3], F::from_u64(14));
    assert_eq!(w.inc[2], F::from_u64(9));
}

// The stage.

#[test]
fn registers_stage_round_trip() {
    let reg = register_witness::<F>(&register_trace(), 8);
    let mut prover_acc = Openings::<F>::new(reg.log_t);
    let mut prover_t = ProverTranscript::<F>::new(b"registers-stage");
    let proof = prove_registers(&reg, &mut prover_acc, &mut prover_t);
    let narg = prover_t.into_proof();
    let mut verifier_acc = Openings::<F>::new(reg.log_t);
    let mut verifier_t = VerifierTranscript::<F>::new(b"registers-stage", narg);
    verify_registers(
        &proof,
        reg.log_t,
        reg.log_k,
        &mut verifier_acc,
        &mut verifier_t,
    )
    .expect("registers stage must verify");
}

#[test]
fn registers_stage_tampered_rw_opening_rejected() {
    let reg = register_witness::<F>(&register_trace(), 8);
    let mut prover_acc = Openings::<F>::new(reg.log_t);
    let mut prover_t = ProverTranscript::<F>::new(b"registers-stage");
    let mut proof = prove_registers(&reg, &mut prover_acc, &mut prover_t);
    let narg = prover_t.into_proof();
    let one = F::from_u64(1);
    let verdict = |proof: &_, narg: Vec<F>| {
        let mut verifier_acc = Openings::<F>::new(reg.log_t);
        let mut verifier_t = VerifierTranscript::<F>::new(b"registers-stage", narg);
        verify_registers(
            proof,
            reg.log_t,
            reg.log_k,
            &mut verifier_acc,
            &mut verifier_t,
        )
    };
    proof.ve_openings[0] = proof.ve_openings[0].add(one);
    assert_eq!(
        verdict(&proof, narg.clone()),
        Err(RegistersStageError::ValEvaluationClaim)
    );
    proof.rw_openings[0] = proof.rw_openings[0].add(one);
    assert_eq!(
        verdict(&proof, narg.clone()),
        Err(RegistersStageError::ReadWriteClaim)
    );
    proof.cr_openings[0] = proof.cr_openings[0].add(one);
    assert_eq!(
        verdict(&proof, narg.clone()),
        Err(RegistersStageError::ClaimReductionClaim)
    );
    assert_eq!(
        verdict(&proof, Vec::new()),
        Err(RegistersStageError::Sumcheck)
    );
}

#[test]
fn registers_change_by_the_written_increments() {
    let w = register_witness::<F>(&register_trace(), 8);
    let t = 1usize << w.log_t;
    for k in 0..8 {
        assert_eq!(w.val[k * t], F::from_u64(0));
        for j in 0..t - 1 {
            let step = w.wa[k * t + j].mul(w.inc[j]);
            assert_eq!(w.val[k * t + j + 1], w.val[k * t + j].add(step));
        }
    }
    for j in 0..t {
        let sum = |at: &dyn Fn(usize) -> F| (0..8).fold(F::from_u64(0), |a, k| a.add(at(k * t + j)));
        assert_eq!(w.rs1_value[j], sum(&|x| w.ra1[x].mul(w.val[x])));
        assert_eq!(w.rs2_value[j], sum(&|x| w.ra2[x].mul(w.val[x])));
        assert_eq!(
            w.rd_write_value[j],
            sum(&|x| w.wa[x].mul(w.val[x].add(w.inc[j])))
        );
    }
}

#[test]
fn every_changed_register_opening_is_refused() {
    let reg = register_witness::<F>(&register_trace(), 8);
    let mut prover_acc = Openings::<F>::new(reg.log_t);
    let mut prover_t = ProverTranscript::<F>::new(b"registers-stage");
    let mut proof = prove_registers(&reg, &mut prover_acc, &mut prover_t);
    let narg = prover_t.into_proof();
    let one = F::from_u64(1);
    let verdict = |proof: &_| {
        let mut verifier_acc = Openings::<F>::new(reg.log_t);
        let mut verifier_t = VerifierTranscript::<F>::new(b"registers-stage", narg.clone());
        verify_registers(
            proof,
            reg.log_t,
            reg.log_k,
            &mut verifier_acc,
            &mut verifier_t,
        )
    };
    for i in 0..5 {
        proof.rw_openings[i] = proof.rw_openings[i].add(one);
        assert_eq!(verdict(&proof), Err(RegistersStageError::ReadWriteClaim));
        proof.rw_openings[i] = proof.rw_openings[i].sub(one);
    }
    for i in 0..3 {
        proof.spartan_seeds[i] = proof.spartan_seeds[i].add(one);
        assert_eq!(verdict(&proof), Err(RegistersStageError::Sumcheck));
        proof.spartan_seeds[i] = proof.spartan_seeds[i].sub(one);
    }
    assert_eq!(verdict(&proof), Ok(()));
}

#[test]
fn padding_cycles_change_no_register() {
    let trace = &register_trace()[..3];
    let w = register_witness::<F>(trace, 8);
    let t = 1usize << w.log_t;
    assert_eq!(t, 4);
    let zero = F::from_u64(0);
    for k in 0..8 {
        let last = k * t + 3;
        assert_eq!((w.ra1[last], w.ra2[last], w.wa[last]), (zero, zero, zero));
    }
    assert_eq!((w.inc[3], w.rd_write_value[3]), (zero, zero));
    assert_eq!((w.rs1_value[3], w.rs2_value[3]), (zero, zero));
}

#[test]
fn every_cycle_marks_at_most_one_register() {
    let trace = &register_trace()[..3];
    let w = register_witness::<F>(trace, 8);
    let t = 1usize << w.log_t;
    let marked = |m: &[F], j: usize| -> Vec<usize> {
        (0..8)
            .filter(|k| m[k * t + j] != F::from_u64(0))
            .inspect(|k| assert_eq!(m[k * t + j], F::from_u64(1)))
            .collect()
    };
    let of = |read: Option<(u8, u64)>| read.map(|(k, _)| k as usize).into_iter().collect();
    for (j, row) in trace.iter().enumerate() {
        let rs1: Vec<usize> = of(row.rs1_read);
        let rs2: Vec<usize> = of(row.rs2_read);
        assert_eq!(marked(&w.ra1, j), rs1);
        assert_eq!(marked(&w.ra2, j), rs2);
        assert_eq!(marked(&w.wa, j), vec![row.rd_write.unwrap().0 as usize]);
    }
    for m in [&w.ra1, &w.ra2, &w.wa] {
        assert!(marked(m, 3).is_empty());
    }
}

#[test]
fn a_single_cycle_is_proved_and_a_larger_value_refused() {
    let reg = register_witness::<F>(&register_trace()[..1], 8);
    assert_eq!(reg.log_t, 0);
    let mut prover_acc = Openings::<F>::new(reg.log_t);
    let mut prover_t = ProverTranscript::<F>::new(b"registers-stage");
    let mut proof = prove_registers(&reg, &mut prover_acc, &mut prover_t);
    let narg = prover_t.into_proof();
    let verdict = |proof: &_| {
        let mut verifier_acc = Openings::<F>::new(reg.log_t);
        let mut verifier_t = VerifierTranscript::<F>::new(b"registers-stage", narg.clone());
        verify_registers(
            proof,
            reg.log_t,
            reg.log_k,
            &mut verifier_acc,
            &mut verifier_t,
        )
    };
    assert_eq!(verdict(&proof), Ok(()));
    proof.rw_openings[0] = proof.rw_openings[0].add(F::from_u64(1));
    assert!(verdict(&proof).is_err());
}
