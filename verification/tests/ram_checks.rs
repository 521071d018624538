use jolt_goldilocks::field::Field;
use jolt_goldilocks::framework::accumulator::{
    CommittedPolynomial, Openings, SumcheckId, VirtualPolynomial,
};
use jolt_goldilocks::framework::poly;
use jolt_goldilocks::framework::sumcheck::{prove, verify, SumcheckClaim};
use jolt_goldilocks::framework::transcript::{Challenge, ProverTranscript, VerifierTranscript};
use jolt_goldilocks::goldilocks::Goldilocks;
use jolt_goldilocks::zkvm::ram::output_check::{RamOutputCheck, RamOutputCheckParams};
use jolt_goldilocks::zkvm::ram::raf_evaluation::{RamRafEvaluation, RamRafEvaluationParams};
use jolt_goldilocks::zkvm::ram::read_write_checking::{
    RamReadWriteChecking, RamReadWriteCheckingParams,
};
use jolt_goldilocks::zkvm::ram::stage::{prove_ram, verify_ram, RamStageError};
use jolt_goldilocks::zkvm::ram::val_check::{RamValCheck, RamValCheckParams};
use jolt_goldilocks::zkvm::ram::witness::ram_witness;
use jolt_goldilocks::zkvm::trace::{CircuitFlagSet, CycleRow, InstructionFlagSet};

type F = Goldilocks;

struct Rng(u64);
impl Rng {
    fn next(&mut self) -> u64 {
        self.0 = self.0.wrapping_add(0x9E37_79B9_7F4A_7C15);
        let mut z = self.0;
        z = (z ^ (z >> 30)).wrapping_mul(0xBF58_476D_1CE4_E5B9);
        z = (z ^ (z >> 27)).wrapping_mul(0x94D0_49BB_1331_11EB);
        z ^ (z >> 31)
    }
}

fn rand_vec(rng: &mut Rng, n: usize) -> Vec<F> {
    (0..n).map(|_| F::from_u64(rng.next())).collect()
}

fn dot(poly: &[F], eq: &[F]) -> F {
    poly.iter()
        .zip(eq.iter())
        .fold(F::from_u64(0), |a, (p, e)| a.add(p.mul(*e)))
}

fn reversed(xs: &[F]) -> Vec<F> {
    xs.iter().rev().copied().collect()
}

fn cat(a: &[F], b: &[F]) -> Vec<F> {
    [a, b].concat()
}

/// The constraints of one cycle that the sample rows exercise.

fn add_row(unexpanded_pc: u64, left: u64, right: u64) -> CycleRow {
    let mut circuit_flags = CircuitFlagSet::none();
    circuit_flags.add_operands = true;
    let mut instruction_flags = InstructionFlagSet::none();
    instruction_flags.left_operand_is_rs1_value = true;
    instruction_flags.right_operand_is_rs2_value = true;
    CycleRow {
        is_noop: false,
        unexpanded_pc,
        rs1_read: Some((1, left)),
        rs2_read: Some((2, right)),
        rd_write: None,
        ram_access_address: None,
        ram_read_value: None,
        ram_write_value: None,
        imm: 0,
        circuit_flags,
        instruction_flags,
        lookup_index: 0,
        lookup_output: left.wrapping_add(right),
        lookup_table: None,
    }
}

fn with_ram(mut row: CycleRow, address: u64, read: u64, write: u64) -> CycleRow {
    row.ram_access_address = Some(address);
    row.ram_read_value = Some(read);
    row.ram_write_value = Some(write);
    row
}

fn claim_of(num_vars: usize, degree: usize, claimed_sum: F) -> SumcheckClaim<F> {
    SumcheckClaim {
        num_vars,
        degree,
        claimed_sum,
    }
}

fn overwrite_first(narg: &mut [F]) {
    for (i, value) in (1u64..=4).enumerate() {
        narg[i] = F::from_u64(value);
    }
}

// Read-write checking.

fn seed_components(
    acc: &mut Openings<F>,
    r_cycle: &[F],
    ra: &[F],
    val: &[F],
    inc: &[F],
    log_k: usize,
) {
    let t = inc.len();
    let eq_cycle = poly::eq_evals(r_cycle);
    let mut rv = F::from_u64(0);
    let mut wv = F::from_u64(0);
    for kk in 0..1usize << log_k {
        for j in 0..t {
            let idx = kk * t + j;
            let weight = eq_cycle[j].mul(ra[idx]);
            rv = rv.add(weight.mul(val[idx]));
            wv = wv.add(weight.mul(inc[j].add(val[idx])));
        }
    }
    acc.append_virtual(
        VirtualPolynomial::RamReadValue,
        SumcheckId::SpartanOuter,
        r_cycle.to_vec(),
        rv,
    );
    acc.append_virtual(
        VirtualPolynomial::RamWriteValue,
        SumcheckId::SpartanOuter,
        r_cycle.to_vec(),
        wv,
    );
}

fn carry_read_write(from: &Openings<F>, to: &mut Openings<F>) {
    let id = SumcheckId::RamReadWriteChecking;
    for poly in [VirtualPolynomial::RamVal, VirtualPolynomial::RamRa] {
        let (pt, c) = from.get_virtual_polynomial_opening(poly, id);
        to.append_virtual(poly, id, pt, c);
    }
    let (pt, c) = from.get_committed_polynomial_opening(CommittedPolynomial::RamInc, id);
    to.append_dense(CommittedPolynomial::RamInc, id, pt, c);
}

fn read_write_round_trip(seed: u64, log_k: usize, log_t: usize) {
    let mut rng = Rng(seed);
    let t = 1usize << log_t;
    let n = t << log_k;
    let ra = rand_vec(&mut rng, n);
    let val = rand_vec(&mut rng, n);
    let inc = rand_vec(&mut rng, t);
    let r_cycle = rand_vec(&mut rng, log_t);

    let mut prover_acc = Openings::<F>::new(log_t);
    seed_components(&mut prover_acc, &r_cycle, &ra, &val, &inc, log_k);
    let mut prover_t = ProverTranscript::<F>::new(b"ram-rw-checking");
    let params = RamReadWriteCheckingParams::new(&prover_acc, log_k, &mut prover_t);
    let input_claim = params.input_claim(&prover_acc);
    let mut prover = RamReadWriteChecking::new_prover(params, ra.clone(), val.clone(), inc.clone());
    let challenges = prove(&mut prover.sum, log_k + log_t, &mut prover_t);
    prover.cache_openings(&mut prover_acc, &challenges);
    let narg = prover_t.into_proof();

    let mut verifier_acc = Openings::<F>::new(log_t);
    seed_components(&mut verifier_acc, &r_cycle, &ra, &val, &inc, log_k);
    let mut verifier_t = VerifierTranscript::<F>::new(b"ram-rw-checking", narg);
    let vparams = RamReadWriteCheckingParams::new(&verifier_acc, log_k, &mut verifier_t);
    let verifier = RamReadWriteChecking::new_verifier(vparams);
    let eval = verify(&claim_of(log_k + log_t, 3, input_claim), &mut verifier_t)
        .expect("ram rw-checking must verify");
    assert_eq!(eval.point, challenges);
    carry_read_write(&prover_acc, &mut verifier_acc);
    let expected = verifier.expected_output_claim(&verifier_acc, &challenges);
    assert_eq!(eval.value, expected);

    let eq_rho = poly::eq_evals(&reversed(&eval.point));
    for (poly, matrix) in [
        (VirtualPolynomial::RamRa, &ra),
        (VirtualPolynomial::RamVal, &val),
    ] {
        let (_, claim) =
            prover_acc.get_virtual_polynomial_opening(poly, SumcheckId::RamReadWriteChecking);
        assert_eq!(claim, dot(matrix, &eq_rho));
    }
}

#[test]
fn ram_rw_checking_round_trip() {
    read_write_round_trip(0x6600, 2, 2);
    read_write_round_trip(0x6601, 3, 3);
    read_write_round_trip(0x6602, 2, 5);
    read_write_round_trip(0x6603, 4, 3);
}

#[test]
fn read_write_checking_tampered_proof_rejected() {
    let (log_k, log_t) = (3, 3);
    let mut rng = Rng(0x66FE);
    let t = 1usize << log_t;
    let n = t << log_k;
    let ra = rand_vec(&mut rng, n);
    let val = rand_vec(&mut rng, n);
    let inc = rand_vec(&mut rng, t);
    let r_cycle = rand_vec(&mut rng, log_t);
    let mut acc = Openings::<F>::new(log_t);
    seed_components(&mut acc, &r_cycle, &ra, &val, &inc, log_k);
    let mut prover_t = ProverTranscript::<F>::new(b"t");
    let params = RamReadWriteCheckingParams::new(&acc, log_k, &mut prover_t);
    let input_claim = params.input_claim(&acc);
    let mut prover = RamReadWriteChecking::new_prover(params, ra, val, inc);
    let _ = prove(&mut prover.sum, log_k + log_t, &mut prover_t);
    let mut narg = prover_t.into_proof();
    overwrite_first(&mut narg);
    let mut verifier_t = VerifierTranscript::<F>::new(b"t", narg);
    let _ = RamReadWriteCheckingParams::new(&acc, log_k, &mut verifier_t);
    assert!(verify(&claim_of(log_k + log_t, 3, input_claim), &mut verifier_t).is_err());
}

// The output check.

fn build_outputs(
    rng: &mut Rng,
    log_k: usize,
    io_start: usize,
    io_end: usize,
) -> (Vec<F>, Vec<F>, Vec<F>) {
    let k = 1usize << log_k;
    let val_final = rand_vec(rng, k);
    let mut val_io = vec![F::from_u64(0); k];
    let mut io_mask = vec![F::from_u64(0); k];
    for idx in io_start..io_end {
        val_io[idx] = val_final[idx];
        io_mask[idx] = F::from_u64(1);
    }
    (val_final, val_io, io_mask)
}

fn output_round_trip(seed: u64, log_k: usize, io_start: usize, io_end: usize) {
    let mut rng = Rng(seed);
    let (val_final, val_io, io_mask) = build_outputs(&mut rng, log_k, io_start, io_end);
    let r_address = rand_vec(&mut rng, log_k);

    let mut prover_acc = Openings::<F>::new(log_k);
    let mut prover = RamOutputCheck::new_prover(
        RamOutputCheckParams::new(r_address.clone()),
        val_final.clone(),
        val_io.clone(),
        io_mask.clone(),
    );
    let input_claim = prover.input_claim();
    assert_eq!(input_claim, F::from_u64(0));
    let mut prover_t = ProverTranscript::<F>::new(b"ram-output-check");
    let challenges = prove(&mut prover.sum, log_k, &mut prover_t);
    prover.cache_openings(&mut prover_acc, &challenges);
    let narg = prover_t.into_proof();

    let mut verifier_acc = Openings::<F>::new(log_k);
    let verifier =
        RamOutputCheck::new_verifier(RamOutputCheckParams::new(r_address), val_io, io_mask);
    let mut verifier_t = VerifierTranscript::<F>::new(b"ram-output-check", narg);
    let eval = verify(&claim_of(log_k, 3, input_claim), &mut verifier_t)
        .expect("output check must verify");
    assert_eq!(eval.point, challenges);

    let (_, vf_rho) = prover_acc
        .get_virtual_polynomial_opening(VirtualPolynomial::RamValFinal, SumcheckId::RamOutputCheck);
    verifier_acc.append_virtual(
        VirtualPolynomial::RamValFinal,
        SumcheckId::RamOutputCheck,
        eval.point.clone(),
        vf_rho,
    );
    let expected = verifier.expected_output_claim(&verifier_acc, &challenges);
    assert_eq!(eval.value, expected);
    let eq_rho = poly::eq_evals(&reversed(&eval.point));
    assert_eq!(vf_rho, dot(&val_final, &eq_rho));
}

#[test]
fn ram_output_check_round_trip() {
    output_round_trip(0x0C01, 3, 2, 6);
    output_round_trip(0x0C02, 4, 4, 12);
    output_round_trip(0x0C03, 5, 0, 16);
    output_round_trip(0x0C04, 6, 8, 40);
}

#[test]
fn output_check_tampered_proof_rejected() {
    let log_k = 4;
    let mut rng = Rng(0x0CFE);
    let (val_final, val_io, io_mask) = build_outputs(&mut rng, log_k, 4, 12);
    let r_address = rand_vec(&mut rng, log_k);
    let params = RamOutputCheckParams::new(r_address);
    let mut prover = RamOutputCheck::new_prover(params, val_final, val_io, io_mask);
    let input_claim = prover.input_claim();
    let mut prover_t = ProverTranscript::<F>::new(b"t");
    let _ = prove(&mut prover.sum, log_k, &mut prover_t);
    let mut narg = prover_t.into_proof();
    overwrite_first(&mut narg);
    let mut verifier_t = VerifierTranscript::<F>::new(b"t", narg);
    assert!(verify(&claim_of(log_k, 3, input_claim), &mut verifier_t).is_err());
}

// The address evaluation.

fn address_round_trip(seed: u64, log_k: usize, log_t: usize) {
    let mut rng = Rng(seed);
    let k = 1usize << log_k;
    let ra = rand_vec(&mut rng, k);
    let start_address = 0x8000_0000u64;
    let unmap: Vec<F> = (0..k)
        .map(|idx| F::from_u64(start_address + idx as u64))
        .collect();
    let r_cycle = rand_vec(&mut rng, log_t);
    let raf_claim = dot(&ra, &unmap);
    let seed_acc = |acc: &mut Openings<F>| {
        acc.append_virtual(
            VirtualPolynomial::RamAddress,
            SumcheckId::SpartanOuter,
            r_cycle.clone(),
            raf_claim,
        );
    };

    let mut prover_acc = Openings::<F>::new(log_t);
    seed_acc(&mut prover_acc);
    let params = RamRafEvaluationParams::new(&prover_acc, log_k);
    let input_claim = RamRafEvaluationParams::<F>::input_claim(&prover_acc);
    let mut prover = RamRafEvaluation::new_prover(params, ra.clone(), unmap.clone());
    let mut prover_t = ProverTranscript::<F>::new(b"ram-raf-evaluation");
    let challenges = prove(&mut prover.sum, log_k, &mut prover_t);
    prover.cache_openings(&mut prover_acc, &challenges);
    let narg = prover_t.into_proof();

    let mut verifier_acc = Openings::<F>::new(log_t);
    seed_acc(&mut verifier_acc);
    let vparams = RamRafEvaluationParams::new(&verifier_acc, log_k);
    let verifier = RamRafEvaluation::new_verifier(vparams, unmap);
    let mut verifier_t = VerifierTranscript::<F>::new(b"ram-raf-evaluation", narg);
    let eval = verify(&claim_of(log_k, 2, input_claim), &mut verifier_t)
        .expect("raf-evaluation must verify");
    assert_eq!(eval.point, challenges);

    let (ra_pt, ra_rho) = prover_acc
        .get_virtual_polynomial_opening(VirtualPolynomial::RamRa, SumcheckId::RamRafEvaluation);
    verifier_acc.append_virtual(
        VirtualPolynomial::RamRa,
        SumcheckId::RamRafEvaluation,
        ra_pt,
        ra_rho,
    );
    let expected = verifier.expected_output_claim(&verifier_acc, &challenges);
    assert_eq!(eval.value, expected);
    let eq_rho = poly::eq_evals(&reversed(&eval.point));
    assert_eq!(ra_rho, dot(&ra, &eq_rho));
}

#[test]
fn ram_raf_evaluation_round_trip() {
    for log_k in 1..=8 {
        address_round_trip(0x3A00 + log_k as u64, log_k, 4);
    }
}

#[test]
fn raf_evaluation_tampered_proof_rejected() {
    let log_k = 5;
    let mut rng = Rng(0x3AFE);
    let k = 1usize << log_k;
    let ra = rand_vec(&mut rng, k);
    let unmap: Vec<F> = (0..k).map(|idx| F::from_u64(idx as u64)).collect();
    let r_cycle = rand_vec(&mut rng, 4);
    let mut acc = Openings::<F>::new(4);
    acc.append_virtual(
        VirtualPolynomial::RamAddress,
        SumcheckId::SpartanOuter,
        r_cycle,
        dot(&ra, &unmap),
    );
    let params = RamRafEvaluationParams::new(&acc, log_k);
    let input_claim = RamRafEvaluationParams::<F>::input_claim(&acc);
    let mut prover = RamRafEvaluation::new_prover(params, ra, unmap);
    let mut prover_t = ProverTranscript::<F>::new(b"t");
    let _ = prove(&mut prover.sum, log_k, &mut prover_t);
    let mut narg = prover_t.into_proof();
    narg[0] = narg[0].add(F::from_u64(1));
    let mut verifier_t = VerifierTranscript::<F>::new(b"t", narg);
    assert!(verify(&claim_of(log_k, 2, input_claim), &mut verifier_t).is_err());
}

// The value check.

struct ValueCase {
    log_k: usize,
    log_t: usize,
    inc: Vec<F>,
    wa: Vec<F>,
    initial: Vec<F>,
    r_address: Vec<F>,
    r_cycle: Vec<F>,
    val_final: F,
}

fn value_case(rng: &mut Rng, log_k: usize, log_t: usize) -> ValueCase {
    let k = 1usize << log_k;
    let t = 1usize << log_t;
    let inc = rand_vec(rng, t);
    let r_address = rand_vec(rng, log_k);
    let r_cycle = rand_vec(rng, log_t);
    let initial = rand_vec(rng, k);
    let eq_address = poly::eq_evals(&r_address);
    let wa: Vec<F> = (0..t)
        .map(|_| eq_address[(rng.next() as usize) % k])
        .collect();
    let val_final = F::from_u64(rng.next());
    ValueCase {
        log_k,
        log_t,
        inc,
        wa,
        initial,
        r_address,
        r_cycle,
        val_final,
    }
}

/// The openings under which the claim equals the weighted sum, and that sum.
fn value_openings(case: &ValueCase, gamma: F) -> (Openings<F>, F) {
    let lt_table = poly::lt_evals(&case.r_cycle);
    let init_eval = dot(&case.initial, &poly::eq_evals(&case.r_address));
    let s = (0..case.inc.len()).fold(F::from_u64(0), |acc, j| {
        acc.add(case.inc[j].mul(case.wa[j]).mul(lt_table[j].add(gamma)))
    });
    let val_rw = s
        .sub(gamma.mul(case.val_final.sub(init_eval)))
        .add(init_eval);
    let mut acc = Openings::<F>::new(case.log_t);
    acc.append_virtual(
        VirtualPolynomial::RamVal,
        SumcheckId::RamReadWriteChecking,
        cat(&case.r_address, &case.r_cycle),
        val_rw,
    );
    acc.append_virtual(
        VirtualPolynomial::RamValFinal,
        SumcheckId::RamOutputCheck,
        case.r_address.clone(),
        case.val_final,
    );
    (acc, s)
}

fn value_round_trip(seed: u64, log_k: usize, log_t: usize) {
    let mut rng = Rng(seed);
    let case = value_case(&mut rng, log_k, log_t);
    let mut probe_t = ProverTranscript::<F>::new(b"ram-val-check");
    let gamma = probe_t.challenge();
    let (mut prover_acc, s) = value_openings(&case, gamma);

    let mut prover_t = ProverTranscript::<F>::new(b"ram-val-check");
    let params = RamValCheckParams::new(&prover_acc, case.log_k, &case.initial, &mut prover_t);
    assert_eq!(params.gamma, gamma);
    let input_claim = params.input_claim(&prover_acc);
    assert_eq!(input_claim, s);
    let mut prover = RamValCheck::new_prover(params, case.inc.clone(), case.wa.clone());
    let challenges = prove(&mut prover.sum, log_t, &mut prover_t);
    prover.cache_openings(&mut prover_acc, &challenges);
    let narg = prover_t.into_proof();

    let (mut verifier_acc, _) = value_openings(&case, gamma);
    let mut verifier_t = VerifierTranscript::<F>::new(b"ram-val-check", narg);
    let vparams = RamValCheckParams::new(&verifier_acc, log_k, &case.initial, &mut verifier_t);
    let verifier = RamValCheck::new_verifier(vparams);
    let eval =
        verify(&claim_of(log_t, 3, input_claim), &mut verifier_t).expect("val-check must verify");
    assert_eq!(eval.point, challenges);

    let id = SumcheckId::RamValCheck;
    let (inc_pt, inc_rho) =
        prover_acc.get_committed_polynomial_opening(CommittedPolynomial::RamInc, id);
    let (wa_pt, wa_rho) = prover_acc.get_virtual_polynomial_opening(VirtualPolynomial::RamRa, id);
    verifier_acc.append_dense(CommittedPolynomial::RamInc, id, inc_pt, inc_rho);
    verifier_acc.append_virtual(VirtualPolynomial::RamRa, id, wa_pt, wa_rho);
    let expected = verifier.expected_output_claim(&verifier_acc, &challenges);
    assert_eq!(eval.value, expected);

    let eq_rho = poly::eq_evals(&reversed(&eval.point));
    assert_eq!(inc_rho, dot(&case.inc, &eq_rho));
    assert_eq!(wa_rho, dot(&case.wa, &eq_rho));
}

#[test]
fn ram_val_check_round_trip() {
    for log_t in 1..=8 {
        value_round_trip(0x4A00 + log_t as u64, 3, log_t);
    }
}

#[test]
fn val_check_tampered_proof_rejected() {
    let (log_k, log_t) = (2, 4);
    let mut rng = Rng(0x4AFE);
    let case = value_case(&mut rng, log_k, log_t);
    let mut probe_t = ProverTranscript::<F>::new(b"t");
    let gamma = probe_t.challenge();
    let (acc, _) = value_openings(&case, gamma);
    let mut prover_t = ProverTranscript::<F>::new(b"t");
    let params = RamValCheckParams::new(&acc, log_k, &case.initial, &mut prover_t);
    let input_claim = params.input_claim(&acc);
    let mut prover = RamValCheck::new_prover(params, case.inc.clone(), case.wa.clone());
    let _ = prove(&mut prover.sum, log_t, &mut prover_t);
    let mut narg = prover_t.into_proof();
    narg[0] = narg[0].add(F::from_u64(1));
    let mut verifier_t = VerifierTranscript::<F>::new(b"t", narg);
    let _ = RamValCheckParams::new(&acc, log_k, &case.initial, &mut verifier_t);
    assert!(verify(&claim_of(log_t, 3, input_claim), &mut verifier_t).is_err());
}

// The matrices of a trace.

fn ram_trace() -> Vec<CycleRow> {
    vec![
        with_ram(add_row(0, 0, 0), 2, 0, 5),
        with_ram(add_row(4, 0, 0), 2, 5, 5),
        with_ram(add_row(8, 0, 0), 5, 0, 9),
        with_ram(add_row(12, 0, 0), 2, 5, 14),
        CycleRow::noop_at(16),
    ]
}

#[test]
fn ram_witness_satisfies_read_write_checking() {
    let w = ram_witness::<F>(&ram_trace(), 8);
    assert_eq!(w.log_k, 3);
    assert_eq!(w.log_t, 3);

    let mut rng = Rng(0x00C0_FFEE);
    let r_cycle = rand_vec(&mut rng, w.log_t);
    let eq = poly::eq_evals(&r_cycle);
    let rv = dot(&w.ram_read_value, &eq);
    let wv = dot(&w.ram_write_value, &eq);
    let seed = |acc: &mut Openings<F>| {
        acc.append_virtual(
            VirtualPolynomial::RamReadValue,
            SumcheckId::SpartanOuter,
            r_cycle.clone(),
            rv,
        );
        acc.append_virtual(
            VirtualPolynomial::RamWriteValue,
            SumcheckId::SpartanOuter,
            r_cycle.clone(),
            wv,
        );
    };

    let rounds = w.log_k + w.log_t;
    let mut prover_acc = Openings::<F>::new(w.log_t);
    seed(&mut prover_acc);
    let mut prover_t = ProverTranscript::<F>::new(b"ram-witness-rw");
    let params = RamReadWriteCheckingParams::new(&prover_acc, w.log_k, &mut prover_t);
    let input_claim = rv.add(params.gamma.mul(wv));
    let mut prover =
        RamReadWriteChecking::new_prover(params, w.ra.clone(), w.val.clone(), w.inc.clone());
    let challenges = prove(&mut prover.sum, rounds, &mut prover_t);
    prover.cache_openings(&mut prover_acc, &challenges);
    let narg = prover_t.into_proof();

    let mut verifier_acc = Openings::<F>::new(w.log_t);
    seed(&mut verifier_acc);
    let mut verifier_t = VerifierTranscript::<F>::new(b"ram-witness-rw", narg);
    let vparams = RamReadWriteCheckingParams::new(&verifier_acc, w.log_k, &mut verifier_t);
    let verifier = RamReadWriteChecking::new_verifier(vparams);
    let eval = verify(&claim_of(rounds, 3, input_claim), &mut verifier_t)
        .expect("materialized RAM witness must satisfy read-write-checking");
    assert_eq!(eval.point, challenges);
    carry_read_write(&prover_acc, &mut verifier_acc);
    assert_eq!(
        eval.value,
        verifier.expected_output_claim(&verifier_acc, &challenges)
    );
}

#[test]
fn witness_read_before_write_snapshot() {
    let w = ram_witness::<F>(&ram_trace(), 8);
    let t = 1usize << w.log_t;
    assert_eq!(w.val[2 * t + 1], F::from_u64(5));
    assert_eq!(w.val[2 * t + 3], F::from_u64(5));
    assert_eq!(w.val[2 * t + 4], F::from_u64(14));
    assert_eq!(w.inc[1], F::from_u64(0));
    assert_eq!(w.ram_read_value[1], F::from_u64(5));
    assert_eq!(w.inc[3], F::from_u64(9));
    assert_eq!(w.inc_i128, vec![5, 0, 9, 9, 0, 0, 0, 0]);
    assert_eq!(w.val_final[2], F::from_u64(14));
    assert_eq!(w.val_final[5], F::from_u64(9));
}

// The stage.

fn public_columns(log_k: usize) -> (Vec<F>, Vec<F>, Vec<F>) {
    let k = 1usize << log_k;
    let unmap: Vec<F> = (0..k)
        .map(|i| F::from_u64(0x8000_0000 + i as u64))
        .collect();
    let zero = vec![F::from_u64(0); k];
    (unmap, zero.clone(), zero)
}

#[test]
fn ram_stage_round_trip() {
    let w = ram_witness::<F>(&ram_trace(), 8);
    let (unmap, val_io, io_mask) = public_columns(w.log_k);
    let mut prover_acc = Openings::<F>::new(w.log_t);
    let mut prover_t = ProverTranscript::<F>::new(b"ram-stage");
    let proof = prove_ram(
        &w,
        &unmap,
        &val_io,
        &io_mask,
        &mut prover_acc,
        &mut prover_t,
    );
    let narg = prover_t.into_proof();
    let mut verifier_acc = Openings::<F>::new(w.log_t);
    let mut verifier_t = VerifierTranscript::<F>::new(b"ram-stage", narg);
    verify_ram(
        &proof,
        w.log_t,
        w.log_k,
        &unmap,
        &val_io,
        &io_mask,
        &mut verifier_acc,
        &mut verifier_t,
    )
    .expect("RAM stage must verify");
}

#[test]
fn stage_tampered_rw_opening_rejected() {
    let w = ram_witness::<F>(&ram_trace(), 8);
    let (unmap, val_io, io_mask) = public_columns(w.log_k);
    let mut prover_acc = Openings::<F>::new(w.log_t);
    let mut prover_t = ProverTranscript::<F>::new(b"ram-stage");
    let mut proof = prove_ram(
        &w,
        &unmap,
        &val_io,
        &io_mask,
        &mut prover_acc,
        &mut prover_t,
    );
    let narg = prover_t.into_proof();
    let one = F::from_u64(1);
    let verdict = |proof: &_, narg: Vec<F>| {
        let mut verifier_acc = Openings::<F>::new(w.log_t);
        let mut verifier_t = VerifierTranscript::<F>::new(b"ram-stage", narg);
        verify_ram(
            proof,
            w.log_t,
            w.log_k,
            &unmap,
            &val_io,
            &io_mask,
            &mut verifier_acc,
            &mut verifier_t,
        )
    };
    proof.vc_openings[0] = proof.vc_openings[0].add(one);
    assert_eq!(
        verdict(&proof, narg.clone()),
        Err(RamStageError::ValCheckClaim)
    );
    proof.rw_openings[0] = proof.rw_openings[0].add(one);
    assert_eq!(
        verdict(&proof, narg.clone()),
        Err(RamStageError::BatchedClaim)
    );
    assert_eq!(verdict(&proof, Vec::new()), Err(RamStageError::Sumcheck));
}

#[test]
fn memory_changes_by_the_written_increments() {
    let w = ram_witness::<F>(&ram_trace(), 8);
    let t = 1usize << w.log_t;
    for k in 0..8 {
        assert_eq!(w.val[k * t], F::from_u64(0));
        for j in 0..t {
            let next = w.val[k * t + j].add(w.ra[k * t + j].mul(w.inc[j]));
            if j + 1 < t {
                assert_eq!(w.val[k * t + j + 1], next);
            } else {
                assert_eq!(w.val_final[k], next);
            }
        }
    }
    for j in 0..t {
        let sum = |at: &dyn Fn(usize) -> F| (0..8).fold(F::from_u64(0), |a, k| a.add(at(k * t + j)));
        assert_eq!(w.ram_read_value[j], sum(&|x| w.ra[x].mul(w.val[x])));
        assert_eq!(
            w.ram_write_value[j],
            sum(&|x| w.ra[x].mul(w.val[x].add(w.inc[j])))
        );
    }
}

#[test]
fn every_changed_ram_opening_is_refused() {
    let w = ram_witness::<F>(&ram_trace(), 8);
    let (unmap, val_io, _) = public_columns(w.log_k);
    // A mask on the words that stay zero.
    let io_mask: Vec<F> = w
        .val_final
        .iter()
        .map(|v| F::from_u64((*v == F::from_u64(0)) as u64))
        .collect();
    let mut prover_acc = Openings::<F>::new(w.log_t);
    let mut prover_t = ProverTranscript::<F>::new(b"ram-stage");
    let mut proof = prove_ram(
        &w,
        &unmap,
        &val_io,
        &io_mask,
        &mut prover_acc,
        &mut prover_t,
    );
    let narg = prover_t.into_proof();
    let one = F::from_u64(1);
    let verdict = |proof: &_| {
        let mut verifier_acc = Openings::<F>::new(w.log_t);
        let mut verifier_t = VerifierTranscript::<F>::new(b"ram-stage", narg.clone());
        verify_ram(
            proof,
            w.log_t,
            w.log_k,
            &unmap,
            &val_io,
            &io_mask,
            &mut verifier_acc,
            &mut verifier_t,
        )
    };
    assert_eq!(verdict(&proof), Ok(()));
    for i in 0..3 {
        proof.rw_openings[i] = proof.rw_openings[i].add(one);
        assert_eq!(verdict(&proof), Err(RamStageError::BatchedClaim));
        proof.rw_openings[i] = proof.rw_openings[i].sub(one);
    }
    proof.raf_opening = proof.raf_opening.add(one);
    assert_eq!(verdict(&proof), Err(RamStageError::BatchedClaim));
    proof.raf_opening = proof.raf_opening.sub(one);
    proof.oc_opening = proof.oc_opening.add(one);
    assert_eq!(verdict(&proof), Err(RamStageError::BatchedClaim));
    proof.oc_opening = proof.oc_opening.sub(one);
    proof.vc_openings[1] = proof.vc_openings[1].add(one);
    assert_eq!(verdict(&proof), Err(RamStageError::ValCheckClaim));
}

#[test]
fn every_cycle_marks_the_word_it_accesses() {
    let trace = ram_trace();
    let w = ram_witness::<F>(&trace, 8);
    let t = 1usize << w.log_t;
    for j in 0..t {
        let accessed = trace.get(j).and_then(|row| row.ram_access_address);
        for k in 0..8 {
            let mark = (accessed == Some(k as u64)) as u64;
            assert_eq!(w.ra[k * t + j], F::from_u64(mark));
        }
        assert_eq!(w.inc[j], F::from_i128(w.inc_i128[j]));
    }
    assert_eq!(w.inc_i128, vec![5, 0, 9, 9, 0, 0, 0, 0]);
}

#[test]
fn a_single_access_is_proved_and_a_larger_value_refused() {
    let w = ram_witness::<F>(&ram_trace()[..1], 8);
    assert_eq!(w.log_t, 0);
    let (unmap, val_io, io_mask) = public_columns(w.log_k);
    let mut prover_acc = Openings::<F>::new(w.log_t);
    let mut prover_t = ProverTranscript::<F>::new(b"ram-stage");
    let mut proof = prove_ram(
        &w,
        &unmap,
        &val_io,
        &io_mask,
        &mut prover_acc,
        &mut prover_t,
    );
    let narg = prover_t.into_proof();
    let verdict = |proof: &_| {
        let mut verifier_acc = Openings::<F>::new(w.log_t);
        let mut verifier_t = VerifierTranscript::<F>::new(b"ram-stage", narg.clone());
        verify_ram(
            proof,
            w.log_t,
            w.log_k,
            &unmap,
            &val_io,
            &io_mask,
            &mut verifier_acc,
            &mut verifier_t,
        )
    };
    assert_eq!(verdict(&proof), Ok(()));
    proof.rw_openings[0] = proof.rw_openings[0].add(F::from_u64(1));
    assert!(verdict(&proof).is_err());
}
