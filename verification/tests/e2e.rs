use jolt_goldilocks::field::Field;
use jolt_goldilocks::framework::accumulator::{CommittedPolynomial, SumcheckId};
use jolt_goldilocks::framework::poly;
use jolt_goldilocks::framework::transcript::{ProverTranscript, VerifierTranscript};
use jolt_goldilocks::goldilocks::Goldilocks;
use jolt_goldilocks::r1cs::layout::{
    ADD_C0, CONST_ONE, F_ADD, F_DO_NOT_UPDATE_PC, F_JUMP, LEFT, LEFT_SIGN, LIMB, MUL_C0, MUL_C1,
    MUL_C2, NEXT_UNEXPANDED_PC, NUM_VARS, PRODUCT, PRODUCT_SIGN, Q, RIGHT_MAG, RIGHT_SIGN, RLO,
    SHOULD_BRANCH, SIGN_PROD, UNEXPANDED_PC,
};
use jolt_goldilocks::r1cs::matrices::ConstraintMatrices;
use jolt_goldilocks::zkvm::driver::DriverError;
use jolt_goldilocks::zkvm::e2e::{
    prove_e2e, settle_openings, verify_e2e, BytecodeProverInputs, BytecodeVerifierInputs, E2eError,
    E2eProof, OpenObligations, Stage8OpenError, VerifierParams,
};
use jolt_goldilocks::zkvm::read_raf_stage::ReadRafStageError;
use jolt_goldilocks::zkvm::real_trace::{assemble_real_witness, RealWitness};
use jolt_goldilocks::zkvm::spartan::stage::SpartanStageError;
use jolt_goldilocks::zkvm::trace::{CircuitFlagSet, CycleRow, Instruction, InstructionFlagSet};

type F = Goldilocks;

/// The constraints of one cycle that the sample rows exercise.

fn limbed_constraints() -> ConstraintMatrices<F> {
    let one = F::from_u64(1);
    let neg = |x: u64| F::from_u64(0).sub(F::from_u64(x));
    let var = |v: usize| vec![(v, one)];
    let mut a = Vec::new();
    let mut b = Vec::new();
    let mut c = Vec::new();
    let mut push = |l: Vec<(usize, F)>, r: Vec<(usize, F)>, o: Vec<(usize, F)>| {
        a.push(l);
        b.push(r);
        c.push(o);
    };
    for k in 0..4 {
        push(var(LEFT + k / 2), var(RIGHT_MAG + k % 2), var(Q + k));
    }
    let unit = || vec![(CONST_ONE, one)];
    push(
        vec![(Q, one), (PRODUCT, neg(1)), (MUL_C0, neg(LIMB))],
        unit(),
        vec![],
    );
    push(
        vec![
            (Q + 1, one),
            (Q + 2, one),
            (MUL_C0, one),
            (PRODUCT + 1, neg(1)),
            (MUL_C1, neg(LIMB)),
        ],
        unit(),
        vec![],
    );
    push(
        vec![
            (Q + 3, one),
            (MUL_C1, one),
            (PRODUCT + 2, neg(1)),
            (MUL_C2, neg(LIMB)),
        ],
        unit(),
        vec![],
    );
    push(
        vec![(MUL_C2, one), (PRODUCT + 3, neg(1))],
        unit(),
        vec![],
    );
    push(var(LEFT_SIGN), var(RIGHT_SIGN), var(SIGN_PROD));
    push(
        vec![
            (LEFT_SIGN, one),
            (RIGHT_SIGN, one),
            (SIGN_PROD, neg(2)),
            (PRODUCT_SIGN, neg(1)),
        ],
        unit(),
        vec![],
    );
    push(
        var(F_ADD),
        vec![
            (LEFT, one),
            (RIGHT_MAG, one),
            (RLO, neg(1)),
            (ADD_C0, neg(LIMB)),
        ],
        vec![],
    );
    push(
        var(F_ADD),
        vec![
            (LEFT + 1, one),
            (RIGHT_MAG + 1, one),
            (ADD_C0, one),
            (RLO + 1, neg(1)),
            (RLO + 2, neg(LIMB)),
        ],
        vec![],
    );
    push(
        vec![
            (CONST_ONE, one),
            (SHOULD_BRANCH, neg(1)),
            (F_JUMP, neg(1)),
        ],
        vec![
            (UNEXPANDED_PC, one),
            (CONST_ONE, F::from_u64(4)),
            (F_DO_NOT_UPDATE_PC, neg(4)),
            (NEXT_UNEXPANDED_PC, neg(1)),
        ],
        vec![],
    );
    ConstraintMatrices::new(13, NUM_VARS, a, b, c)
}

fn add_row(unexpanded_pc: u64, left: u64, right: u64) -> CycleRow {
    let mut circuit_flags = CircuitFlagSet::none();
    circuit_flags.add_operands = true;
    let mut instruction_flags = InstructionFlagSet::none();
    instruction_flags.left_operand_is_rs1_value = true;
    instruction_flags.right_operand_is_rs2_value = true;
    CycleRow {
        is_noop: false,
        unexpanded_pc,
        rs1_read: Some((1, left)),
        rs2_read: Some((2, right)),
        rd_write: None,
        ram_access_address: None,
        ram_read_value: None,
        ram_write_value: None,
        imm: 0,
        circuit_flags,
        instruction_flags,
        lookup_index: 0,
        lookup_output: left.wrapping_add(right),
        lookup_table: None,
    }
}

fn with_rd(mut row: CycleRow, rd: u8, pre: u64, post: u64) -> CycleRow {
    row.rd_write = Some((rd, pre, post));
    row
}

fn with_ram(mut row: CycleRow, address: u64, read: u64, write: u64) -> CycleRow {
    row.ram_access_address = Some(address);
    row.ram_read_value = Some(read);
    row.ram_write_value = Some(write);
    row
}

fn with_reads(mut row: CycleRow, rs1: Option<u8>, rs2: Option<u8>) -> CycleRow {
    row.rs1_read = rs1.map(|r| (r, 0));
    row.rs2_read = rs2.map(|r| (r, 0));
    row
}

fn memory_trace() -> Vec<CycleRow> {
    vec![
        with_ram(with_rd(add_row(0, 0, 0), 3, 0, 5), 2, 0, 5),
        with_ram(
            with_rd(with_reads(add_row(4, 0, 0), Some(3), Some(0)), 4, 0, 9),
            2,
            5,
            5,
        ),
        with_ram(
            with_rd(with_reads(add_row(8, 0, 0), Some(3), Some(4)), 3, 5, 14),
            5,
            0,
            9,
        ),
        CycleRow::noop_at(12),
    ]
}

fn instruction(address: u64, rd: Option<u8>) -> Instruction {
    Instruction {
        address,
        imm: 0,
        rd,
        rs1: None,
        rs2: None,
        circuit_flags: CircuitFlagSet::none(),
        instruction_flags: InstructionFlagSet::none(),
        lookup_table: None,
    }
}

fn program() -> Vec<Instruction> {
    vec![
        instruction(0, None),
        instruction(0x8000_0000, Some(3)),
        instruction(0x8000_0004, Some(4)),
        instruction(0x8000_0008, Some(3)),
    ]
}

fn real_witness() -> RealWitness<F> {
    witness_of(memory_trace())
}

fn witness_of(rows: Vec<CycleRow>) -> RealWitness<F> {
    let lowest = 0x8000_0000u64;
    let trace: Vec<CycleRow> = rows
        .into_iter()
        .map(|mut row| {
            row.ram_access_address = row.ram_access_address.map(|k| lowest + 8 * k);
            row
        })
        .collect();
    assemble_real_witness(limbed_constraints(), &trace, &[1, 2, 3, 0], lowest, 8, 8)
}

fn verdict(
    proof: &E2eProof<F>,
    witness: &RealWitness<F>,
    bytecode: &[Instruction],
    narg: Vec<F>,
) -> Result<OpenObligations<F>, E2eError> {
    let params = VerifierParams::from_witness(witness);
    let bc = BytecodeVerifierInputs {
        bytecode,
        log_k_chunks: vec![1, 1],
        log_register: 3,
        base_index: 5,
    };
    let mut transcript = VerifierTranscript::<F>::new(b"e2e", narg);
    verify_e2e(proof, &params, &bc, &mut transcript)
}

fn refusal(result: Result<OpenObligations<F>, E2eError>) -> E2eError {
    match result {
        Ok(_) => panic!("accepted"),
        Err(e) => e,
    }
}

#[test]
fn e2e_round_trip() {
    let witness = real_witness();
    assert!(witness.r1cs.is_satisfied());
    let bytecode = program();
    let bc = BytecodeProverInputs {
        bytecode: &bytecode,
        indices: vec![vec![0, 1, 1, 0], vec![1, 0, 1, 0]],
        log_k_chunks: vec![1, 1],
        log_register: 3,
        base_index: 5,
    };
    let mut transcript = ProverTranscript::<F>::new(b"e2e");
    let out = prove_e2e(&witness, &bc, &mut transcript).expect("an honest trace proves");
    let narg = transcript.into_proof();
    let owed = verdict(&out.proof, &witness, &bytecode, narg.clone()).expect("and verifies");

    // Both sides owe the same openings.
    assert_eq!(owed.inventory.requests, out.obligations.inventory.requests);
    assert_eq!(owed.inventory.points, out.obligations.inventory.points);
    assert_eq!(owed.inventory.claims, out.obligations.inventory.claims);
    assert_eq!(owed.rd_point, out.obligations.rd_point);
    assert_eq!(owed.rd_claim, out.obligations.rd_claim);
    assert_eq!(owed.ram_claim, out.obligations.ram_claim);
    assert_eq!(owed.pushforward_claims, out.obligations.pushforward_claims);
    let dense: Vec<CommittedPolynomial> = owed
        .inventory
        .requests
        .iter()
        .filter(|r| r.sumcheck == SumcheckId::PushforwardGkr)
        .map(|r| r.poly)
        .collect();
    assert_eq!(
        dense,
        vec![
            CommittedPolynomial::RaDense(5),
            CommittedPolynomial::RaDense(6)
        ]
    );

    // The pushforward columns open to the claims.
    for (i, column) in out.pushforward_columns.iter().enumerate() {
        assert_eq!(
            poly::evaluate(column, &owed.pushforward_points[i]),
            owed.pushforward_claims[i]
        );
    }
    assert_eq!(settle_openings(true, true, true), Ok(()));
}

#[test]
fn e2e_refusals() {
    let witness = real_witness();
    let bytecode = program();
    let bc = BytecodeProverInputs {
        bytecode: &bytecode,
        indices: vec![vec![0, 1, 1, 0], vec![1, 0, 1, 0]],
        log_k_chunks: vec![1, 1],
        log_register: 3,
        base_index: 5,
    };
    let mut transcript = ProverTranscript::<F>::new(b"e2e");
    let out = prove_e2e(&witness, &bc, &mut transcript).expect("an honest trace proves");
    let narg = transcript.into_proof();
    let mut proof = out.proof;
    let one = F::from_u64(1);

    assert_eq!(
        refusal(verdict(&proof, &witness, &bytecode, Vec::new())),
        E2eError::Driver(DriverError::Spartan(SpartanStageError::Sumcheck))
    );
    let short = narg[..narg.len() - 1].to_vec();
    assert!(matches!(
        refusal(verdict(&proof, &witness, &bytecode, short)),
        E2eError::Pushforward(_)
    ));
    let mut other = bytecode.clone();
    other[1].rd = Some(7);
    assert!(matches!(
        refusal(verdict(&proof, &witness, &other, narg.clone())),
        E2eError::BytecodeReadRaf(_)
    ));
    proof.binary.aux_evals[0] = proof.binary.aux_evals[0].add(F::from_u64(2));
    assert_eq!(
        refusal(verdict(&proof, &witness, &bytecode, narg.clone())),
        E2eError::Driver(DriverError::Booleanity)
    );
    proof.binary.aux_evals[0] = proof.binary.aux_evals[0].sub(F::from_u64(2));
    proof.binary.spartan.cz_rx = proof.binary.spartan.cz_rx.add(one);
    assert_eq!(
        refusal(verdict(&proof, &witness, &bytecode, narg.clone())),
        E2eError::Driver(DriverError::Spartan(SpartanStageError::OuterClaim))
    );
    proof.binary.spartan.cz_rx = proof.binary.spartan.cz_rx.sub(one);
    let openings = &mut proof.bytecode_read_raf.read_raf.ra_openings;
    openings[0] = openings[0].add(one);
    assert_eq!(
        refusal(verdict(&proof, &witness, &bytecode, narg)),
        E2eError::BytecodeReadRaf(ReadRafStageError::Claim)
    );
}

#[test]
fn openings_are_settled_in_order() {
    let stage8 = |e: Stage8OpenError| Err(E2eError::Stage8(e));
    assert_eq!(
        settle_openings(false, false, false),
        stage8(Stage8OpenError::Inventory)
    );
    assert_eq!(
        settle_openings(true, false, false),
        stage8(Stage8OpenError::Increments)
    );
    assert_eq!(
        settle_openings(true, true, false),
        stage8(Stage8OpenError::Pushforward)
    );
}

#[test]
fn fewer_auxiliary_openings_than_sent_are_settled() {
    // The carry of the first sum is the fifth auxiliary column.
    let mut rows = memory_trace();
    rows[0] = with_ram(with_rd(add_row(0, 0xFFFF_FFFF, 1), 3, 0, 5), 2, 0, 5);
    let witness = witness_of(rows);
    let bytecode = program();
    let bc = BytecodeProverInputs {
        bytecode: &bytecode,
        indices: vec![vec![0, 1, 1, 0], vec![1, 0, 1, 0]],
        log_k_chunks: vec![1, 1],
        log_register: 3,
        base_index: 5,
    };
    let mut transcript = ProverTranscript::<F>::new(b"e2e");
    let out = prove_e2e(&witness, &bc, &mut transcript).expect("an honest trace proves");
    let narg = transcript.into_proof();
    assert_ne!(out.proof.binary.aux_evals[4], F::from_u64(0));
    let mut params = VerifierParams::from_witness(&witness);
    params.n_aux = 3;
    let bcv = BytecodeVerifierInputs {
        bytecode: &bytecode,
        log_k_chunks: vec![1, 1],
        log_register: 3,
        base_index: 5,
    };
    let mut vt = VerifierTranscript::<F>::new(b"e2e", narg);
    let owed = verify_e2e(&out.proof, &params, &bcv, &mut vt).expect("and verifies");
    assert_eq!(
        owed.inventory.requests.len() + 1,
        out.obligations.inventory.requests.len()
    );
    let mut vt = VerifierTranscript::<F>::new(b"e2e", Vec::new());
    assert_eq!(
        refusal(verify_e2e(&out.proof, &params, &bcv, &mut vt)),
        E2eError::Driver(DriverError::Spartan(SpartanStageError::Sumcheck))
    );
}
