use jolt_goldilocks::field::Field;
use jolt_goldilocks::framework::accumulator::{
    CommittedPolynomial, Openings, SumcheckId, VirtualPolynomial,
};
use jolt_goldilocks::framework::poly;
use jolt_goldilocks::framework::poly::MultilinearPolynomial;
use jolt_goldilocks::framework::sumcheck::{prove, verify, SumcheckClaim};
use jolt_goldilocks::framework::transcript::{ProverTranscript, VerifierTranscript};
use jolt_goldilocks::goldilocks::Goldilocks;
use jolt_goldilocks::zkvm::claim_reductions::hamming_weight::{
    virt_sumcheck_id, FamilyCounts, HammingWeightClaimReduction,
    HammingWeightClaimReductionParams,
};
use jolt_goldilocks::zkvm::claim_reductions::increments::{
    IncClaimReduction, IncClaimReductionParams,
};
use jolt_goldilocks::zkvm::claim_reductions::instruction_lookups::{
    InstructionLookupsClaimReduction, InstructionLookupsClaimReductionParams,
};
use jolt_goldilocks::zkvm::claim_reductions::ram_ra::{RamRaClaimReduction, RamRaReductionParams};
use jolt_goldilocks::zkvm::claim_reductions::registers::{
    RegistersClaimReduction, RegistersClaimReductionParams,
};

type F = Goldilocks;

struct Rng(u64);
impl Rng {
    fn next(&mut self) -> u64 {
        self.0 = self.0.wrapping_add(0x9E37_79B9_7F4A_7C15);
        let mut z = self.0;
        z = (z ^ (z >> 30)).wrapping_mul(0xBF58_476D_1CE4_E5B9);
        z = (z ^ (z >> 27)).wrapping_mul(0x94D0_49BB_1331_11EB);
        z ^ (z >> 31)
    }
}

fn rand_vec(rng: &mut Rng, n: usize) -> Vec<F> {
    (0..n).map(|_| F::from_u64(rng.next())).collect()
}

fn dot(poly: &[F], eq: &[F]) -> F {
    poly.iter()
        .zip(eq.iter())
        .fold(F::from_u64(0), |a, (p, e)| a.add(p.mul(*e)))
}

fn reversed(xs: &[F]) -> Vec<F> {
    xs.iter().rev().copied().collect()
}

fn cat(a: &[F], b: &[F]) -> Vec<F> {
    [a, b].concat()
}

fn degree_two_claim(num_vars: usize, claimed_sum: F) -> SumcheckClaim<F> {
    SumcheckClaim {
        num_vars,
        degree: 2,
        claimed_sum,
    }
}

// The fused hamming weight reduction.

fn pushforward(addr: &[Option<usize>], r_cycle: &[F], k_dom: usize) -> (Vec<F>, F) {
    let eq_cycle = poly::eq_evals(r_cycle);
    let mut g = vec![F::from_u64(0); k_dom];
    let mut hw = F::from_u64(0);
    for (j, a) in addr.iter().enumerate() {
        if let Some(k) = a {
            g[*k] = g[*k].add(eq_cycle[j]);
            hw = hw.add(eq_cycle[j]);
        }
    }
    (g, hw)
}

fn hamming_round_trip(seed: u64, counts: FamilyCounts, log_k_chunk: usize, log_t: usize) {
    let mut rng = Rng(seed);
    let k_dom = 1usize << log_k_chunk;
    let t = 1usize << log_t;
    let polynomial_types = counts.polynomial_types();
    assert_eq!(
        polynomial_types.len(),
        counts.instruction_d + counts.bytecode_d + counts.ram_d
    );

    let r_cycle = rand_vec(&mut rng, log_t);
    let r_addr_bool = rand_vec(&mut rng, log_k_chunk);
    let eq_bool = poly::eq_evals(&r_addr_bool);

    let ram_mask: Vec<bool> = (0..t).map(|_| rng.next() % 3 != 0).collect();
    let mut g_cols = Vec::new();
    let mut hw_vals = Vec::new();
    let mut r_addr_virt = Vec::new();
    for poly in &polynomial_types {
        let is_ram = matches!(poly, CommittedPolynomial::RamRa(_));
        let addr: Vec<Option<usize>> = (0..t)
            .map(|j| {
                let k = (rng.next() as usize) % k_dom;
                if is_ram && !ram_mask[j] {
                    None
                } else {
                    Some(k)
                }
            })
            .collect();
        let (g, hw) = pushforward(&addr, &r_cycle, k_dom);
        g_cols.push(g);
        hw_vals.push(hw);
        r_addr_virt.push(rand_vec(&mut rng, log_k_chunk));
    }
    let ram_hw_factor = polynomial_types
        .iter()
        .position(|p| matches!(p, CommittedPolynomial::RamRa(_)))
        .map(|i| hw_vals[i]);

    let seed_acc = |acc: &mut Openings<F>| {
        for (i, &poly) in polynomial_types.iter().enumerate() {
            acc.append_dense(
                poly,
                SumcheckId::Booleanity,
                cat(&r_addr_bool, &r_cycle),
                dot(&g_cols[i], &eq_bool),
            );
            let eq_v = poly::eq_evals(&r_addr_virt[i]);
            acc.append_dense(
                poly,
                virt_sumcheck_id(poly),
                cat(&r_addr_virt[i], &r_cycle),
                dot(&g_cols[i], &eq_v),
            );
        }
        if let Some(hw) = ram_hw_factor {
            acc.append_virtual(
                VirtualPolynomial::RamHammingWeight,
                SumcheckId::RamHammingBooleanity,
                r_cycle.clone(),
                hw,
            );
        }
    };

    let mut prover_acc = Openings::<F>::new(log_t);
    seed_acc(&mut prover_acc);
    let mut prover_t = ProverTranscript::<F>::new(b"hamming-weight-claim-reduce");
    let params =
        HammingWeightClaimReductionParams::new(counts, log_k_chunk, &prover_acc, &mut prover_t);
    let input_claim = params.input_claim();
    let columns = g_cols
        .iter()
        .map(|g| MultilinearPolynomial::new(g.clone()))
        .collect();
    let mut prover = HammingWeightClaimReduction::new_prover(params, columns);
    let challenges = prove(&mut prover.sum, log_k_chunk, &mut prover_t);
    prover.cache_openings(&mut prover_acc, &challenges);
    let narg = prover_t.into_proof();

    let mut verifier_acc = Openings::<F>::new(log_t);
    seed_acc(&mut verifier_acc);
    let mut verifier_t = VerifierTranscript::<F>::new(b"hamming-weight-claim-reduce", narg);
    let vparams =
        HammingWeightClaimReductionParams::new(counts, log_k_chunk, &verifier_acc, &mut verifier_t);
    let verifier = HammingWeightClaimReduction::new_verifier(vparams);
    let eval = verify(&degree_two_claim(log_k_chunk, input_claim), &mut verifier_t)
        .expect("hamming-weight reduction must verify");
    assert_eq!(eval.point, challenges);

    for &poly in &polynomial_types {
        let (_, g_claim) = prover_acc
            .get_committed_polynomial_opening(poly, SumcheckId::HammingWeightClaimReduction);
        verifier_acc.append_dense(
            poly,
            SumcheckId::HammingWeightClaimReduction,
            eval.point.clone(),
            g_claim,
        );
    }
    let expected = verifier.expected_output_claim(&verifier_acc, &challenges);
    assert_eq!(eval.value, expected);
}

#[test]
fn hamming_weight_claim_reduction_round_trip() {
    hamming_round_trip(
        0xD001,
        FamilyCounts {
            instruction_d: 2,
            bytecode_d: 1,
            ram_d: 1,
        },
        2,
        3,
    );
    hamming_round_trip(
        0xD002,
        FamilyCounts {
            instruction_d: 1,
            bytecode_d: 2,
            ram_d: 2,
        },
        3,
        4,
    );
}

// The increment reduction.

fn inc_round_trip(seed: u64, log_t: usize) {
    let mut rng = Rng(seed);
    let t = 1usize << log_t;
    let ram_inc = rand_vec(&mut rng, t);
    let rd_inc = rand_vec(&mut rng, t);
    let r2 = rand_vec(&mut rng, log_t);
    let r4 = rand_vec(&mut rng, log_t);
    let s4 = rand_vec(&mut rng, log_t);
    let s5 = rand_vec(&mut rng, log_t);

    let v1 = dot(&ram_inc, &poly::eq_evals(&r2));
    let v2 = dot(&ram_inc, &poly::eq_evals(&r4));
    let w1 = dot(&rd_inc, &poly::eq_evals(&s4));
    let w2 = dot(&rd_inc, &poly::eq_evals(&s5));

    let seed_acc = |acc: &mut Openings<F>| {
        acc.append_dense(
            CommittedPolynomial::RamInc,
            SumcheckId::RamReadWriteChecking,
            r2.clone(),
            v1,
        );
        acc.append_dense(
            CommittedPolynomial::RamInc,
            SumcheckId::RamValCheck,
            r4.clone(),
            v2,
        );
        acc.append_dense(
            CommittedPolynomial::RdInc,
            SumcheckId::RegistersReadWriteChecking,
            s4.clone(),
            w1,
        );
        acc.append_dense(
            CommittedPolynomial::RdInc,
            SumcheckId::RegistersValEvaluation,
            s5.clone(),
            w2,
        );
    };

    let mut prover_acc = Openings::<F>::new(log_t);
    seed_acc(&mut prover_acc);
    let mut prover_t = ProverTranscript::<F>::new(b"inc-claim-reduction");
    let params = IncClaimReductionParams::new(log_t, &prover_acc, &mut prover_t);
    let input_claim = params.input_claim(&prover_acc);
    let mut prover = IncClaimReduction::new_prover(params, ram_inc.clone(), rd_inc.clone());
    let challenges = prove(&mut prover.sum, log_t, &mut prover_t);
    prover.cache_openings(&mut prover_acc, &challenges);
    let narg = prover_t.into_proof();

    let mut verifier_acc = Openings::<F>::new(log_t);
    seed_acc(&mut verifier_acc);
    let mut verifier_t = VerifierTranscript::<F>::new(b"inc-claim-reduction", narg);
    let vparams = IncClaimReductionParams::new(log_t, &verifier_acc, &mut verifier_t);
    let verifier = IncClaimReduction::new_verifier(vparams);
    let eval = verify(&degree_two_claim(log_t, input_claim), &mut verifier_t)
        .expect("inc reduction must verify");
    assert_eq!(eval.point, challenges);

    let (_, ram_rho) = prover_acc.get_committed_polynomial_opening(
        CommittedPolynomial::RamInc,
        SumcheckId::IncClaimReduction,
    );
    let (_, rd_rho) = prover_acc.get_committed_polynomial_opening(
        CommittedPolynomial::RdInc,
        SumcheckId::IncClaimReduction,
    );
    verifier_acc.append_dense(
        CommittedPolynomial::RamInc,
        SumcheckId::IncClaimReduction,
        eval.point.clone(),
        ram_rho,
    );
    verifier_acc.append_dense(
        CommittedPolynomial::RdInc,
        SumcheckId::IncClaimReduction,
        eval.point.clone(),
        rd_rho,
    );
    let expected = verifier.expected_output_claim(&verifier_acc, &challenges);
    assert_eq!(eval.value, expected);

    let eq_rho = poly::eq_evals(&reversed(&eval.point));
    assert_eq!(ram_rho, dot(&ram_inc, &eq_rho));
    assert_eq!(rd_rho, dot(&rd_inc, &eq_rho));
}

#[test]
fn inc_claim_reduction_round_trip() {
    for log_t in 1..=8 {
        inc_round_trip(0xF000 + log_t as u64, log_t);
    }
}

// The instruction lookup reduction.

const LOOKUP_POLYS: [VirtualPolynomial; 5] = [
    VirtualPolynomial::LookupOutput,
    VirtualPolynomial::LeftLookupOperand,
    VirtualPolynomial::RightLookupOperand,
    VirtualPolynomial::LeftInstructionInput,
    VirtualPolynomial::RightInstructionInput,
];

fn seed_lookups(acc: &mut Openings<F>, r_spartan: &[F], columns: &[Vec<F>]) {
    let eq = poly::eq_evals(r_spartan);
    for (i, &poly) in LOOKUP_POLYS.iter().enumerate() {
        acc.append_virtual(
            poly,
            SumcheckId::SpartanOuter,
            r_spartan.to_vec(),
            dot(&columns[i], &eq),
        );
    }
}

fn wrapped(columns: &[Vec<F>]) -> Vec<MultilinearPolynomial<F>> {
    columns
        .iter()
        .map(|c| MultilinearPolynomial::new(c.clone()))
        .collect()
}

fn lookups_round_trip(seed: u64, log_t: usize) {
    let mut rng = Rng(seed);
    let t = 1usize << log_t;
    let columns: Vec<Vec<F>> = (0..5).map(|_| rand_vec(&mut rng, t)).collect();
    let r_spartan = rand_vec(&mut rng, log_t);

    let mut prover_acc = Openings::<F>::new(log_t);
    seed_lookups(&mut prover_acc, &r_spartan, &columns);
    let mut prover_t = ProverTranscript::<F>::new(b"instr-lookups-claim-reduce");
    let params = InstructionLookupsClaimReductionParams::new(log_t, &prover_acc, &mut prover_t);
    let input_claim = params.input_claim(&prover_acc);
    let mut prover = InstructionLookupsClaimReduction::new_prover(params, wrapped(&columns));
    let challenges = prove(&mut prover.sum, log_t, &mut prover_t);
    prover.cache_openings(&mut prover_acc, &challenges);
    let narg = prover_t.into_proof();

    let mut verifier_acc = Openings::<F>::new(log_t);
    seed_lookups(&mut verifier_acc, &r_spartan, &columns);
    let mut verifier_t = VerifierTranscript::<F>::new(b"instr-lookups-claim-reduce", narg);
    let vparams =
        InstructionLookupsClaimReductionParams::new(log_t, &verifier_acc, &mut verifier_t);
    let verifier = InstructionLookupsClaimReduction::new_verifier(vparams);
    let eval = verify(&degree_two_claim(log_t, input_claim), &mut verifier_t)
        .expect("instruction reduction must verify");
    assert_eq!(eval.point, challenges);

    for &poly in &LOOKUP_POLYS {
        let (_, claim) =
            prover_acc.get_virtual_polynomial_opening(poly, SumcheckId::InstructionClaimReduction);
        verifier_acc.append_virtual(
            poly,
            SumcheckId::InstructionClaimReduction,
            eval.point.clone(),
            claim,
        );
    }
    let expected = verifier.expected_output_claim(&verifier_acc, &challenges);
    assert_eq!(eval.value, expected);

    let eq_rho = poly::eq_evals(&reversed(&eval.point));
    for (i, &poly) in LOOKUP_POLYS.iter().enumerate() {
        let (_, claim) =
            prover_acc.get_virtual_polynomial_opening(poly, SumcheckId::InstructionClaimReduction);
        assert_eq!(claim, dot(&columns[i], &eq_rho));
    }
}

#[test]
fn instruction_lookups_claim_reduction_round_trip() {
    for log_t in 1..=7 {
        lookups_round_trip(0xC000u64.wrapping_add(log_t as u64), log_t);
    }
}

#[test]
fn instruction_lookups_tampered_reduced_opening_rejected() {
    let log_t = 5;
    let mut rng = Rng(0x7373);
    let t = 1usize << log_t;
    let columns: Vec<Vec<F>> = (0..5).map(|_| rand_vec(&mut rng, t)).collect();
    let r_spartan = rand_vec(&mut rng, log_t);

    let mut prover_acc = Openings::<F>::new(log_t);
    seed_lookups(&mut prover_acc, &r_spartan, &columns);
    let mut prover_t = ProverTranscript::<F>::new(b"instr-lookups-claim-reduce");
    let params = InstructionLookupsClaimReductionParams::new(log_t, &prover_acc, &mut prover_t);
    let mut prover = InstructionLookupsClaimReduction::new_prover(params, wrapped(&columns));
    let challenges = prove(&mut prover.sum, log_t, &mut prover_t);
    prover.cache_openings(&mut prover_acc, &challenges);

    let verifier = InstructionLookupsClaimReduction::new_verifier(prover.params);
    let build = |tamper: bool| {
        let mut acc = Openings::<F>::new(log_t);
        for &poly in &LOOKUP_POLYS {
            let (_, mut claim) = prover_acc
                .get_virtual_polynomial_opening(poly, SumcheckId::InstructionClaimReduction);
            if tamper && poly == VirtualPolynomial::RightInstructionInput {
                claim = claim.add(F::from_u64(1));
            }
            acc.append_virtual(
                poly,
                SumcheckId::InstructionClaimReduction,
                challenges.clone(),
                claim,
            );
        }
        verifier.expected_output_claim(&acc, &challenges)
    };
    assert_ne!(build(false), build(true));
}

// The memory access reduction.

fn seed_accesses(
    acc: &mut Openings<F>,
    r_address: &[F],
    ra: &[F],
    cycles: [(SumcheckId, &[F]); 3],
) {
    for (sid, r_cycle) in cycles {
        let eq = poly::eq_evals(r_cycle);
        acc.append_virtual(
            VirtualPolynomial::RamRa,
            sid,
            cat(r_address, r_cycle),
            dot(ra, &eq),
        );
    }
}

fn accesses_round_trip(seed: u64, log_t: usize, log_k: usize) {
    let mut rng = Rng(seed);
    let t = 1usize << log_t;
    let ra = rand_vec(&mut rng, t);
    let r_address = rand_vec(&mut rng, log_k);
    let r_cycle_raf = rand_vec(&mut rng, log_t);
    let r_cycle_rw = rand_vec(&mut rng, log_t);
    let r_cycle_val = rand_vec(&mut rng, log_t);

    let seed_both = |acc: &mut Openings<F>| {
        seed_accesses(
            acc,
            &r_address,
            &ra,
            [
                (SumcheckId::RamRafEvaluation, &r_cycle_raf),
                (SumcheckId::RamReadWriteChecking, &r_cycle_rw),
                (SumcheckId::RamValCheck, &r_cycle_val),
            ],
        );
    };

    let mut prover_acc = Openings::<F>::new(log_t);
    seed_both(&mut prover_acc);
    let mut prover_t = ProverTranscript::<F>::new(b"ram-ra-claim-reduction");
    let params = RamRaReductionParams::new(log_t, log_k, &prover_acc, &mut prover_t);
    let input_claim = params.input_claim();
    let mut prover = RamRaClaimReduction::new_prover(params, ra.clone());
    let challenges = prove(&mut prover.sum, log_t, &mut prover_t);
    prover.cache_openings(&mut prover_acc, &challenges);
    let narg = prover_t.into_proof();

    let mut verifier_acc = Openings::<F>::new(log_t);
    seed_both(&mut verifier_acc);
    let mut verifier_t = VerifierTranscript::<F>::new(b"ram-ra-claim-reduction", narg);
    let vparams = RamRaReductionParams::new(log_t, log_k, &verifier_acc, &mut verifier_t);
    let verifier = RamRaClaimReduction::new_verifier(vparams);
    let eval = verify(&degree_two_claim(log_t, input_claim), &mut verifier_t)
        .expect("ram ra reduction must verify");
    assert_eq!(eval.point, challenges);

    let (_, ra_rho) = prover_acc
        .get_virtual_polynomial_opening(VirtualPolynomial::RamRa, SumcheckId::RamRaClaimReduction);
    verifier_acc.append_virtual(
        VirtualPolynomial::RamRa,
        SumcheckId::RamRaClaimReduction,
        eval.point.clone(),
        ra_rho,
    );
    let expected = verifier.expected_output_claim(&verifier_acc, &challenges);
    assert_eq!(eval.value, expected);

    let eq_rho = poly::eq_evals(&reversed(&eval.point));
    assert_eq!(ra_rho, dot(&ra, &eq_rho));
}

#[test]
fn ram_ra_claim_reduction_round_trip() {
    for log_t in 1..=7 {
        accesses_round_trip(0xB000u64.wrapping_add(log_t as u64), log_t, 3);
    }
}

#[test]
fn ram_ra_tampered_reduced_opening_rejected() {
    let (log_t, log_k) = (5, 3);
    let mut rng = Rng(0x6262);
    let t = 1usize << log_t;
    let ra = rand_vec(&mut rng, t);
    let r_address = rand_vec(&mut rng, log_k);
    let r_cycle_raf = rand_vec(&mut rng, log_t);
    let r_cycle_rw = rand_vec(&mut rng, log_t);
    let r_cycle_val = rand_vec(&mut rng, log_t);

    let mut prover_acc = Openings::<F>::new(log_t);
    seed_accesses(
        &mut prover_acc,
        &r_address,
        &ra,
        [
            (SumcheckId::RamRafEvaluation, &r_cycle_raf),
            (SumcheckId::RamReadWriteChecking, &r_cycle_rw),
            (SumcheckId::RamValCheck, &r_cycle_val),
        ],
    );
    let mut prover_t = ProverTranscript::<F>::new(b"ram-ra-claim-reduction");
    let params = RamRaReductionParams::new(log_t, log_k, &prover_acc, &mut prover_t);
    let mut prover = RamRaClaimReduction::new_prover(params, ra);
    let challenges = prove(&mut prover.sum, log_t, &mut prover_t);
    prover.cache_openings(&mut prover_acc, &challenges);

    let verifier = RamRaClaimReduction::new_verifier(prover.params);
    let (_, ra_rho) = prover_acc
        .get_virtual_polynomial_opening(VirtualPolynomial::RamRa, SumcheckId::RamRaClaimReduction);
    let output = |value: F| {
        let mut acc = Openings::<F>::new(log_t);
        acc.append_virtual(
            VirtualPolynomial::RamRa,
            SumcheckId::RamRaClaimReduction,
            challenges.clone(),
            value,
        );
        verifier.expected_output_claim(&acc, &challenges)
    };
    assert_ne!(output(ra_rho), output(ra_rho.add(F::from_u64(1))));
}

// The register value reduction.

const REGISTER_POLYS: [VirtualPolynomial; 3] = [
    VirtualPolynomial::RdWriteValue,
    VirtualPolynomial::Rs1Value,
    VirtualPolynomial::Rs2Value,
];

fn seed_registers(acc: &mut Openings<F>, r_spartan: &[F], rd: &[F], rs1: &[F], rs2: &[F]) {
    let eq = poly::eq_evals(r_spartan);
    acc.append_virtual(
        VirtualPolynomial::LookupOutput,
        SumcheckId::SpartanOuter,
        r_spartan.to_vec(),
        F::from_u64(0),
    );
    for (poly, column) in REGISTER_POLYS.iter().zip([rd, rs1, rs2]) {
        acc.append_virtual(
            *poly,
            SumcheckId::SpartanOuter,
            r_spartan.to_vec(),
            dot(column, &eq),
        );
    }
}

fn registers_round_trip(seed: u64, log_t: usize) {
    let mut rng = Rng(seed);
    let t = 1usize << log_t;
    let rd = rand_vec(&mut rng, t);
    let rs1 = rand_vec(&mut rng, t);
    let rs2 = rand_vec(&mut rng, t);
    let r_spartan = rand_vec(&mut rng, log_t);

    let mut prover_acc = Openings::<F>::new(log_t);
    seed_registers(&mut prover_acc, &r_spartan, &rd, &rs1, &rs2);
    let mut prover_t = ProverTranscript::<F>::new(b"registers-claim-reduction");
    let params = RegistersClaimReductionParams::new(log_t, &prover_acc, &mut prover_t);
    let input_claim = params.input_claim(&prover_acc);
    let mut prover =
        RegistersClaimReduction::new_prover(params, rd.clone(), rs1.clone(), rs2.clone());
    let challenges = prove(&mut prover.sum, log_t, &mut prover_t);
    prover.cache_openings(&mut prover_acc, &challenges);
    let narg = prover_t.into_proof();

    let mut verifier_acc = Openings::<F>::new(log_t);
    seed_registers(&mut verifier_acc, &r_spartan, &rd, &rs1, &rs2);
    let mut verifier_t = VerifierTranscript::<F>::new(b"registers-claim-reduction", narg);
    let vparams = RegistersClaimReductionParams::new(log_t, &verifier_acc, &mut verifier_t);
    let verifier = RegistersClaimReduction::new_verifier(vparams);
    let eval = verify(&degree_two_claim(log_t, input_claim), &mut verifier_t)
        .expect("registers reduction must verify");
    assert_eq!(eval.point, challenges);

    for &poly in &REGISTER_POLYS {
        let (_, claim) =
            prover_acc.get_virtual_polynomial_opening(poly, SumcheckId::RegistersClaimReduction);
        verifier_acc.append_virtual(
            poly,
            SumcheckId::RegistersClaimReduction,
            eval.point.clone(),
            claim,
        );
    }
    let expected = verifier.expected_output_claim(&verifier_acc, &challenges);
    assert_eq!(eval.value, expected);

    let eq_rho = poly::eq_evals(&reversed(&eval.point));
    for (poly, col) in REGISTER_POLYS.iter().zip([&rd, &rs1, &rs2]) {
        let (_, claim) =
            prover_acc.get_virtual_polynomial_opening(*poly, SumcheckId::RegistersClaimReduction);
        assert_eq!(claim, dot(col, &eq_rho));
    }
}

#[test]
fn registers_claim_reduction_round_trip() {
    for log_t in 1..=8 {
        registers_round_trip(0xA000u64.wrapping_add(log_t as u64), log_t);
    }
}

#[test]
fn registers_tampered_reduced_opening_rejected() {
    let log_t = 5;
    let mut rng = Rng(0x5151);
    let t = 1usize << log_t;
    let rd = rand_vec(&mut rng, t);
    let rs1 = rand_vec(&mut rng, t);
    let rs2 = rand_vec(&mut rng, t);
    let r_spartan = rand_vec(&mut rng, log_t);

    let mut prover_acc = Openings::<F>::new(log_t);
    seed_registers(&mut prover_acc, &r_spartan, &rd, &rs1, &rs2);
    let mut prover_t = ProverTranscript::<F>::new(b"registers-claim-reduction");
    let params = RegistersClaimReductionParams::new(log_t, &prover_acc, &mut prover_t);
    let mut prover = RegistersClaimReduction::new_prover(params, rd, rs1, rs2);
    let challenges = prove(&mut prover.sum, log_t, &mut prover_t);
    prover.cache_openings(&mut prover_acc, &challenges);

    let verifier = RegistersClaimReduction::new_verifier(prover.params);
    let build = |tamper: bool| {
        let mut acc = Openings::<F>::new(log_t);
        for &poly in &REGISTER_POLYS {
            let (_, mut claim) = prover_acc
                .get_virtual_polynomial_opening(poly, SumcheckId::RegistersClaimReduction);
            if tamper && poly == VirtualPolynomial::Rs1Value {
                claim = claim.add(F::from_u64(1));
            }
            acc.append_virtual(
                poly,
                SumcheckId::RegistersClaimReduction,
                challenges.clone(),
                claim,
            );
        }
        verifier.expected_output_claim(&acc, &challenges)
    };
    assert_ne!(build(true), build(false));
}
