use jolt_goldilocks::field::Field;
use jolt_goldilocks::framework::accumulator::{Openings, SumcheckId, VirtualPolynomial};
use jolt_goldilocks::framework::poly;
use jolt_goldilocks::framework::sumcheck::{prove, verify, SumcheckClaim};
use jolt_goldilocks::framework::transcript::{ProverTranscript, VerifierTranscript};
use jolt_goldilocks::goldilocks::Goldilocks;
use jolt_goldilocks::r1cs::key::R1csKey;
use jolt_goldilocks::r1cs::matrices::ConstraintMatrices;
use jolt_goldilocks::zkvm::spartan::inner::{SpartanInner, SpartanInnerParams};
use jolt_goldilocks::zkvm::spartan::instruction_input::{InstructionInput, InstructionInputParams};
use jolt_goldilocks::zkvm::spartan::outer::{SpartanOuter, SpartanOuterParams};
use jolt_goldilocks::zkvm::spartan::shift::{SpartanShift, SpartanShiftParams};

type F = Goldilocks;

struct Rng(u64);
impl Rng {
    fn next(&mut self) -> u64 {
        self.0 = self.0.wrapping_add(0x9E37_79B9_7F4A_7C15);
        let mut z = self.0;
        z = (z ^ (z >> 30)).wrapping_mul(0xBF58_476D_1CE4_E5B9);
        z = (z ^ (z >> 27)).wrapping_mul(0x94D0_49BB_1331_11EB);
        z ^ (z >> 31)
    }
}

fn rand_vec(rng: &mut Rng, n: usize) -> Vec<F> {
    (0..n).map(|_| F::from_u64(rng.next())).collect()
}

fn dot(poly: &[F], eq: &[F]) -> F {
    poly.iter()
        .zip(eq.iter())
        .fold(F::from_u64(0), |a, (p, e)| a.add(p.mul(*e)))
}

fn reversed(xs: &[F]) -> Vec<F> {
    xs.iter().rev().copied().collect()
}

const MATRIX_KEYS: [VirtualPolynomial; 3] = [
    VirtualPolynomial::SpartanAz,
    VirtualPolynomial::SpartanBz,
    VirtualPolynomial::SpartanCz,
];

fn claim_of(num_vars: usize, degree: usize, claimed_sum: F) -> SumcheckClaim<F> {
    SumcheckClaim {
        num_vars,
        degree,
        claimed_sum,
    }
}

fn products(a: &[F], b: &[F]) -> Vec<F> {
    a.iter().zip(b.iter()).map(|(x, y)| x.mul(*y)).collect()
}

// The outer zero check.

fn outer_round_trip(seed: u64, log_n: usize) {
    let mut rng = Rng(seed);
    let n = 1usize << log_n;
    let tau = rand_vec(&mut rng, log_n);
    let az = rand_vec(&mut rng, n);
    let bz = rand_vec(&mut rng, n);
    let cz = products(&az, &bz);

    let mut prover_acc = Openings::<F>::new(log_n);
    let params = SpartanOuterParams::new(tau.clone());
    let mut prover = SpartanOuter::new_prover(params, az.clone(), bz.clone(), cz.clone());
    let input_claim = prover.input_claim();
    assert_eq!(input_claim, F::from_u64(0), "outer is a zero-check");
    let mut prover_t = ProverTranscript::<F>::new(b"spartan-outer");
    let challenges = prove(&mut prover.sum, log_n, &mut prover_t);
    prover.cache_openings(&mut prover_acc, &challenges);
    let narg = prover_t.into_proof();

    let mut verifier_acc = Openings::<F>::new(log_n);
    let verifier = SpartanOuter::new_verifier(SpartanOuterParams::new(tau));
    let mut verifier_t = VerifierTranscript::<F>::new(b"spartan-outer", narg);
    let eval = verify(&claim_of(log_n, 3, input_claim), &mut verifier_t)
        .expect("spartan outer must verify");
    assert_eq!(eval.point, challenges);

    for key in MATRIX_KEYS {
        let (pt, c) = prover_acc.get_virtual_polynomial_opening(key, SumcheckId::SpartanOuter);
        verifier_acc.append_virtual(key, SumcheckId::SpartanOuter, pt, c);
    }
    let expected = verifier.expected_output_claim(&verifier_acc, &challenges);
    assert_eq!(eval.value, expected);

    let eq_rho = poly::eq_evals(&reversed(&eval.point));
    for (key, column) in MATRIX_KEYS.iter().zip([&az, &bz, &cz]) {
        let (_, claim) = prover_acc.get_virtual_polynomial_opening(*key, SumcheckId::SpartanOuter);
        assert_eq!(claim, dot(column, &eq_rho));
    }
}

#[test]
fn spartan_outer_round_trip() {
    for log_n in 1..=8 {
        outer_round_trip(0x0017 + log_n as u64, log_n);
    }
}

#[test]
fn outer_tampered_proof_rejected() {
    let log_n = 4;
    let mut rng = Rng(0x00FE);
    let n = 1usize << log_n;
    let tau = rand_vec(&mut rng, log_n);
    let az = rand_vec(&mut rng, n);
    let bz = rand_vec(&mut rng, n);
    let cz = products(&az, &bz);
    let mut prover = SpartanOuter::new_prover(SpartanOuterParams::new(tau), az, bz, cz);
    let input_claim = prover.input_claim();
    let mut prover_t = ProverTranscript::<F>::new(b"t");
    let _ = prove(&mut prover.sum, log_n, &mut prover_t);
    let mut narg = prover_t.into_proof();
    narg[0] = narg[0].add(F::from_u64(1));
    let mut verifier_t = VerifierTranscript::<F>::new(b"t", narg);
    assert!(verify(&claim_of(log_n, 3, input_claim), &mut verifier_t).is_err());
}

// The inner reduction.

/// `x * x = y` and `y * x = z` over the variables `[1, x, y, z]`.
fn cube_matrices() -> ConstraintMatrices<F> {
    let one = F::from_u64(1);
    ConstraintMatrices::new(
        2,
        4,
        vec![vec![(1, one)], vec![(2, one)]],
        vec![vec![(1, one)], vec![(1, one)]],
        vec![vec![(2, one)], vec![(3, one)]],
    )
}

fn three(rng: &mut Rng) -> [F; 3] {
    [
        F::from_u64(rng.next()),
        F::from_u64(rng.next()),
        F::from_u64(rng.next()),
    ]
}

fn inner_round_trip(seed: u64, num_cycles: usize) {
    let mut rng = Rng(seed);
    let key = R1csKey::new(cube_matrices(), num_cycles);
    let v_pad = key.num_vars_padded;
    let cv = key.num_cycle_vars();

    let z = rand_vec(&mut rng, key.total_cols());
    let r_x = rand_vec(&mut rng, key.num_row_vars());
    let rho = three(&mut rng);

    let (rx_cycle, rx_con) = r_x.split_at(cv);
    let eq_cycle = poly::eq_evals(rx_cycle);
    let z_at_rx_cycle: Vec<F> = (0..v_pad)
        .map(|var| {
            (0..num_cycles).fold(F::from_u64(0), |a, cycle| {
                a.add(eq_cycle[cycle].mul(z[cycle * v_pad + var]))
            })
        })
        .collect();
    let (az, bz, cz) = key.evaluate_sparse_matvec(rx_con, &z_at_rx_cycle);

    let mut prover_acc = Openings::<F>::new(cv);
    for (poly, claim) in MATRIX_KEYS.iter().zip([az, bz, cz]) {
        prover_acc.append_virtual(*poly, SumcheckId::SpartanOuter, r_x.clone(), claim);
    }

    let params = SpartanInnerParams {
        key: &key,
        r_x: r_x.clone(),
        rho,
    };
    let mut prover = SpartanInner::new_prover(params, z.clone());
    let input_claim = prover.input_claim(&prover_acc);
    let combined = key.combined_row(&r_x, rho[0], rho[1], rho[2]);
    assert_eq!(input_claim, dot(&combined, &z));

    let rounds = key.num_col_vars();
    let mut prover_t = ProverTranscript::<F>::new(b"spartan-inner");
    let challenges = prove(&mut prover.sum, rounds, &mut prover_t);
    prover.cache_openings(&mut prover_acc, &challenges);
    let narg = prover_t.into_proof();

    let mut verifier_acc = Openings::<F>::new(cv);
    for poly in MATRIX_KEYS {
        let (pt, c) = prover_acc.get_virtual_polynomial_opening(poly, SumcheckId::SpartanOuter);
        verifier_acc.append_virtual(poly, SumcheckId::SpartanOuter, pt, c);
    }
    let (zpt, zc) = prover_acc.get_virtual_polynomial_opening(
        VirtualPolynomial::SpartanWitnessZ,
        SumcheckId::SpartanInner,
    );
    assert_eq!(zc, dot(&z, &poly::eq_evals(&zpt)));
    verifier_acc.append_virtual(
        VirtualPolynomial::SpartanWitnessZ,
        SumcheckId::SpartanInner,
        zpt,
        zc,
    );

    let verifier = SpartanInner::new_verifier(SpartanInnerParams {
        key: &key,
        r_x,
        rho,
    });
    let mut verifier_t = VerifierTranscript::<F>::new(b"spartan-inner", narg);
    let eval = verify(&claim_of(rounds, 2, input_claim), &mut verifier_t)
        .expect("inner reduction must verify");
    assert_eq!(eval.point, challenges);
    let expected = verifier.expected_output_claim(&verifier_acc, &challenges);
    assert_eq!(eval.value, expected);
}

#[test]
fn inner_reduction_round_trip() {
    inner_round_trip(0x1A1A, 2);
    inner_round_trip(0x2B2B, 4);
    inner_round_trip(0x3C3C, 8);
}

#[test]
fn inner_tampered_proof_rejected() {
    let mut rng = Rng(0x9F9F);
    let key = R1csKey::new(cube_matrices(), 4);
    let z = rand_vec(&mut rng, key.total_cols());
    let r_x = rand_vec(&mut rng, key.num_row_vars());
    let rho = three(&mut rng);
    let params = SpartanInnerParams {
        key: &key,
        r_x: r_x.clone(),
        rho,
    };
    let claimed = dot(&key.combined_row(&r_x, rho[0], rho[1], rho[2]), &z);
    let rounds = key.num_col_vars();
    let mut prover = SpartanInner::new_prover(params, z);
    let mut prover_t = ProverTranscript::<F>::new(b"t");
    let _ = prove(&mut prover.sum, rounds, &mut prover_t);
    let mut narg = prover_t.into_proof();
    let mut honest_t = VerifierTranscript::<F>::new(b"t", narg.clone());
    assert!(verify(&claim_of(rounds, 2, claimed), &mut honest_t).is_ok());
    narg[0] = F::from_u64(1);
    narg[1] = F::from_u64(2);
    narg[2] = F::from_u64(3);
    let mut verifier_t = VerifierTranscript::<F>::new(b"t", narg);
    assert!(verify(&claim_of(rounds, 2, claimed), &mut verifier_t).is_err());
}

// The shift.

const SHIFT_KEYS: [VirtualPolynomial; 5] = [
    VirtualPolynomial::UnexpandedPC,
    VirtualPolynomial::PC,
    VirtualPolynomial::NextIsVirtual,
    VirtualPolynomial::NextIsFirstInSequence,
    VirtualPolynomial::NextIsNoop,
];

fn seed_shift(acc: &mut Openings<F>, r_outer: &[F], r_product: &[F], cols: &[Vec<F>]) {
    let eqp_o = poly::eq_plus_one_evals(r_outer);
    let eqp_p = poly::eq_plus_one_evals(r_product);
    let outer_keys = [
        VirtualPolynomial::NextUnexpandedPC,
        VirtualPolynomial::NextPC,
        VirtualPolynomial::NextIsVirtual,
        VirtualPolynomial::NextIsFirstInSequence,
    ];
    for (i, key) in outer_keys.into_iter().enumerate() {
        acc.append_virtual(
            key,
            SumcheckId::SpartanOuter,
            r_outer.to_vec(),
            dot(&eqp_o, &cols[i]),
        );
    }
    let one = F::from_u64(1);
    let complement: Vec<F> = cols[4].iter().map(|v| one.sub(*v)).collect();
    acc.append_virtual(
        VirtualPolynomial::NextIsNoop,
        SumcheckId::SpartanProductVirtualization,
        r_product.to_vec(),
        one.sub(dot(&eqp_p, &complement)),
    );
}

fn shift_round_trip(seed: u64, log_t: usize) {
    let mut rng = Rng(seed);
    let t = 1usize << log_t;
    let r_outer = rand_vec(&mut rng, log_t);
    let r_product = rand_vec(&mut rng, log_t);
    let cols: Vec<Vec<F>> = (0..5).map(|_| rand_vec(&mut rng, t)).collect();

    let mut prover_acc = Openings::<F>::new(log_t);
    seed_shift(&mut prover_acc, &r_outer, &r_product, &cols);
    let mut prover_t = ProverTranscript::<F>::new(b"spartan-shift");
    let params = SpartanShiftParams::new(&prover_acc, log_t, &mut prover_t);
    let input_claim = params.input_claim(&prover_acc);
    let mut prover = SpartanShift::new_prover(params, cols.clone());
    let challenges = prove(&mut prover.sum, log_t, &mut prover_t);
    prover.cache_openings(&mut prover_acc, &challenges);
    let narg = prover_t.into_proof();

    let mut verifier_acc = Openings::<F>::new(log_t);
    seed_shift(&mut verifier_acc, &r_outer, &r_product, &cols);
    let mut verifier_t = VerifierTranscript::<F>::new(b"spartan-shift", narg);
    let vparams = SpartanShiftParams::new(&verifier_acc, log_t, &mut verifier_t);
    let verifier = SpartanShift::new_verifier(vparams);
    let eval = verify(&claim_of(log_t, 2, input_claim), &mut verifier_t)
        .expect("spartan shift must verify");
    assert_eq!(eval.point, challenges);

    for key in SHIFT_KEYS {
        let (pt, c) = prover_acc.get_virtual_polynomial_opening(key, SumcheckId::SpartanShift);
        verifier_acc.append_virtual(key, SumcheckId::SpartanShift, pt, c);
    }
    let expected = verifier.expected_output_claim(&verifier_acc, &challenges);
    assert_eq!(eval.value, expected);
}

#[test]
fn spartan_shift_round_trip() {
    for log_t in 1..=8 {
        shift_round_trip(0x5417 + log_t as u64, log_t);
    }
}

#[test]
fn shift_tampered_proof_rejected() {
    let log_t = 4;
    let mut rng = Rng(0x54FE);
    let t = 1usize << log_t;
    let r_outer = rand_vec(&mut rng, log_t);
    let r_product = rand_vec(&mut rng, log_t);
    let cols: Vec<Vec<F>> = (0..5).map(|_| rand_vec(&mut rng, t)).collect();
    let mut acc = Openings::<F>::new(log_t);
    seed_shift(&mut acc, &r_outer, &r_product, &cols);
    let mut prover_t = ProverTranscript::<F>::new(b"t");
    let params = SpartanShiftParams::new(&acc, log_t, &mut prover_t);
    let input_claim = params.input_claim(&acc);
    let mut prover = SpartanShift::new_prover(params, cols);
    let _ = prove(&mut prover.sum, log_t, &mut prover_t);
    let mut narg = prover_t.into_proof();
    narg[0] = narg[0].add(F::from_u64(1));
    let mut verifier_t = VerifierTranscript::<F>::new(b"t", narg);
    let _ = SpartanShiftParams::new(&acc, log_t, &mut verifier_t);
    assert!(verify(&claim_of(log_t, 2, input_claim), &mut verifier_t).is_err());
}

// The instruction inputs.

const INPUT_KEYS: [VirtualPolynomial; 8] = [
    VirtualPolynomial::LeftLookupOperand,
    VirtualPolynomial::Rs1Value,
    VirtualPolynomial::RightLookupOperand,
    VirtualPolynomial::UnexpandedPC,
    VirtualPolynomial::InstructionRaf,
    VirtualPolynomial::Rs2Value,
    VirtualPolynomial::InstructionRafFlag,
    VirtualPolynomial::Imm,
];

fn seed_inputs(acc: &mut Openings<F>, r_cycle: &[F], cols: &[Vec<F>]) {
    let eq = poly::eq_evals(r_cycle);
    let side = |k: usize| {
        let first = products(&cols[k], &cols[k + 1]);
        let second = products(&cols[k + 2], &cols[k + 3]);
        dot(&first, &eq).add(dot(&second, &eq))
    };
    acc.append_virtual(
        VirtualPolynomial::LeftInstructionInput,
        SumcheckId::SpartanProductVirtualization,
        r_cycle.to_vec(),
        side(0),
    );
    acc.append_virtual(
        VirtualPolynomial::RightInstructionInput,
        SumcheckId::SpartanProductVirtualization,
        r_cycle.to_vec(),
        side(4),
    );
}

fn inputs_round_trip(seed: u64, log_t: usize) {
    let mut rng = Rng(seed);
    let t = 1usize << log_t;
    let r_cycle = rand_vec(&mut rng, log_t);
    let cols: Vec<Vec<F>> = (0..8).map(|_| rand_vec(&mut rng, t)).collect();

    let mut prover_acc = Openings::<F>::new(log_t);
    seed_inputs(&mut prover_acc, &r_cycle, &cols);
    let mut prover_t = ProverTranscript::<F>::new(b"spartan-instruction-input");
    let params = InstructionInputParams::new(&prover_acc, &mut prover_t);
    let input_claim = params.input_claim(&prover_acc);
    let mut prover = InstructionInput::new_prover(params, cols.clone());
    let challenges = prove(&mut prover.sum, log_t, &mut prover_t);
    prover.cache_openings(&mut prover_acc, &challenges);
    let narg = prover_t.into_proof();

    let mut verifier_acc = Openings::<F>::new(log_t);
    seed_inputs(&mut verifier_acc, &r_cycle, &cols);
    let mut verifier_t = VerifierTranscript::<F>::new(b"spartan-instruction-input", narg);
    let vparams = InstructionInputParams::new(&verifier_acc, &mut verifier_t);
    let verifier = InstructionInput::new_verifier(vparams);
    let eval = verify(&claim_of(log_t, 3, input_claim), &mut verifier_t)
        .expect("instruction-input must verify");
    assert_eq!(eval.point, challenges);

    for key in INPUT_KEYS {
        let (pt, c) = prover_acc
            .get_virtual_polynomial_opening(key, SumcheckId::InstructionInputVirtualization);
        verifier_acc.append_virtual(key, SumcheckId::InstructionInputVirtualization, pt, c);
    }
    let expected = verifier.expected_output_claim(&verifier_acc, &challenges);
    assert_eq!(eval.value, expected);
}

#[test]
fn spartan_instruction_input_round_trip() {
    for log_t in 1..=8 {
        inputs_round_trip(0x1417 + log_t as u64, log_t);
    }
}

#[test]
fn instruction_input_tampered_proof_rejected() {
    let log_t = 4;
    let mut rng = Rng(0x14FE);
    let t = 1usize << log_t;
    let r_cycle = rand_vec(&mut rng, log_t);
    let cols: Vec<Vec<F>> = (0..8).map(|_| rand_vec(&mut rng, t)).collect();
    let mut acc = Openings::<F>::new(log_t);
    seed_inputs(&mut acc, &r_cycle, &cols);
    let mut prover_t = ProverTranscript::<F>::new(b"t");
    let params = InstructionInputParams::new(&acc, &mut prover_t);
    let input_claim = params.input_claim(&acc);
    let mut prover = InstructionInput::new_prover(params, cols);
    let _ = prove(&mut prover.sum, log_t, &mut prover_t);
    let mut narg = prover_t.into_proof();
    for (i, value) in (1u64..=4).enumerate() {
        narg[i] = F::from_u64(value);
    }
    let mut verifier_t = VerifierTranscript::<F>::new(b"t", narg);
    let _ = InstructionInputParams::new(&acc, &mut verifier_t);
    assert!(verify(&claim_of(log_t, 3, input_claim), &mut verifier_t).is_err());
}
