use jolt_goldilocks::field::Field;
use jolt_goldilocks::framework::accumulator::{CommittedPolynomial, Openings, SumcheckId};
use jolt_goldilocks::framework::transcript::{ProverTranscript, VerifierTranscript};
use jolt_goldilocks::goldilocks::Goldilocks;
use jolt_goldilocks::zkvm::bytecode::read_raf_checking::{
    bytecode_rv_keys, bytecode_val_polys, combined_indices, gamma_powers, prove_bytecode_read_raf,
    stage_gamma_lens, verify_bytecode_read_raf, BytecodeReadRafProof, N_BYTECODE_STAGES,
};
use jolt_goldilocks::zkvm::read_raf_stage::ReadRafStageError;
use jolt_goldilocks::zkvm::trace::{
    CircuitFlagSet, Instruction, InstructionFlagSet, NUM_CIRCUIT_FLAGS, NUM_LOOKUP_TABLES,
};

type F = Goldilocks;

fn noop() -> Instruction {
    let mut circuit_flags = CircuitFlagSet::none();
    circuit_flags.do_not_update_unexpanded_pc = true;
    let mut instruction_flags = InstructionFlagSet::none();
    instruction_flags.is_noop = true;
    Instruction {
        address: 0,
        imm: 0,
        rd: None,
        rs1: None,
        rs2: None,
        circuit_flags,
        instruction_flags,
        lookup_table: None,
    }
}

fn add_immediate(address: u64, imm: i128, rd: u8, rs1: u8) -> Instruction {
    let mut circuit_flags = CircuitFlagSet::none();
    circuit_flags.add_operands = true;
    circuit_flags.write_lookup_output_to_rd = true;
    let mut instruction_flags = InstructionFlagSet::none();
    instruction_flags.left_operand_is_rs1_value = true;
    instruction_flags.right_operand_is_imm = true;
    Instruction {
        address,
        imm,
        rd: Some(rd),
        rs1: Some(rs1),
        rs2: None,
        circuit_flags,
        instruction_flags,
        lookup_table: Some(3),
    }
}

fn sample_gammas() -> [Vec<F>; N_BYTECODE_STAGES] {
    let from = |start: u64, len: u64| (0..len).map(|i| F::from_u64(start + i)).collect();
    [
        from(100, (2 + NUM_CIRCUIT_FLAGS) as u64),
        from(200, 4),
        from(300, 9),
        from(400, 3),
        from(500, (2 + NUM_LOOKUP_TABLES) as u64),
    ]
}

#[test]
fn bytecode_val_polys_noop() {
    let bytecode: Vec<Instruction> = (0..3).map(|_| noop()).collect();
    let stage_gammas = sample_gammas();
    let eq_r = vec![F::from_u64(7); 32];
    let eq_r5 = vec![F::from_u64(11); 32];
    let v = bytecode_val_polys(&bytecode, &stage_gammas, &eq_r, &eq_r5);

    let n = noop();
    let addr = F::from_u64(n.address);
    let imm = F::from_u64(0);
    let dnu = 9;
    assert!(n.circuit_flags.bit(dnu));
    for col in &v {
        assert_eq!(col.len(), 3, "one entry per bytecode row");
    }
    assert_eq!(
        v[0][0],
        addr.add(stage_gammas[0][1].mul(imm))
            .add(stage_gammas[0][2 + dnu])
    );
    assert_eq!(v[1][0], F::from_u64(0));
    assert_eq!(
        v[2][0],
        imm.add(stage_gammas[2][1].mul(addr))
            .add(stage_gammas[2][6])
    );
    assert_eq!(v[3][0], F::from_u64(0));
    assert!(n.circuit_flags.is_interleaved_operands());
    assert_eq!(v[4][0], F::from_u64(0));
    assert_eq!(v[0][0], v[0][2]);
}

#[test]
fn bytecode_val_polys_of_an_active_row() {
    let bytecode = [add_immediate(0x8000_0004, -5, 3, 1)];
    let g = sample_gammas();
    let eq_r: Vec<F> = (0..8).map(|i| F::from_u64(1000 + i)).collect();
    let eq_r5: Vec<F> = (0..8).map(|i| F::from_u64(2000 + i)).collect();
    let v = bytecode_val_polys(&bytecode, &g, &eq_r, &eq_r5);
    let addr = F::from_u64(0x8000_0004);
    let imm = F::from_u64(0).sub(F::from_u64(5));
    // The circuit flags of the row are the first and the seventh.
    assert_eq!(
        v[0][0],
        addr.add(g[0][1].mul(imm)).add(g[0][2]).add(g[0][2 + 6])
    );
    assert_eq!(v[1][0], g[1][2]);
    // The registers that are written and read.
    assert_eq!(v[3][0], eq_r[3].mul(g[3][0]).add(eq_r[1].mul(g[3][1])));
    // The written register, the flag of sequential operands and the table.
    assert_eq!(v[4][0], eq_r5[3].add(g[4][1]).add(g[4][2 + 3]));
}

#[test]
fn powers_and_lengths() {
    let g = F::from_u64(3);
    let powers: Vec<F> = [1u64, 3, 9, 27].into_iter().map(F::from_u64).collect();
    assert_eq!(gamma_powers(g, 4), powers);
    assert_eq!(
        stage_gamma_lens(),
        [2 + NUM_CIRCUIT_FLAGS, 4, 9, 3, 2 + NUM_LOOKUP_TABLES]
    );
    let indices = vec![vec![1u32, 0, 3, 2], vec![0u32, 1, 1, 0]];
    assert_eq!(combined_indices(&indices, &vec![2, 1], 4), vec![2, 1, 7, 4]);
    // Only the first cycles are asked for, and the columns may be longer.
    assert_eq!(combined_indices(&indices, &vec![2, 1], 2), vec![2, 1]);
}

fn sample_bytecode() -> Vec<Instruction> {
    vec![
        noop(),
        add_immediate(0x8000_0000, 7, 1, 0),
        add_immediate(0x8000_0004, -5, 3, 1),
        add_immediate(0x8000_0008, 9, 2, 3),
    ]
}

fn verdict(
    proof: &BytecodeReadRafProof<F>,
    bytecode: &[Instruction],
    narg: Vec<F>,
) -> Result<(), ReadRafStageError> {
    let mut acc = Openings::<F>::new(2);
    let mut transcript = VerifierTranscript::<F>::new(b"bytecode", narg);
    verify_bytecode_read_raf(
        proof,
        bytecode,
        vec![1, 1],
        2,
        3,
        &mut acc,
        &mut transcript,
    )
}

#[test]
fn bytecode_stage_round_trip() {
    let bytecode = sample_bytecode();
    // The cycles read the rows one, two, three and zero.
    let indices = vec![vec![0u32, 1, 1, 0], vec![1u32, 0, 1, 0]];
    let mut acc = Openings::<F>::new(2);
    let mut transcript = ProverTranscript::<F>::new(b"bytecode");
    let mut proof = prove_bytecode_read_raf(
        &bytecode,
        &indices,
        vec![1, 1],
        2,
        3,
        &mut acc,
        &mut transcript,
    );
    let narg = transcript.into_proof();
    assert_eq!(verdict(&proof, &bytecode, narg.clone()), Ok(()));
    assert_eq!(bytecode_rv_keys().len(), N_BYTECODE_STAGES);
    let (_, opened) = acc.get_committed_polynomial_opening(
        CommittedPolynomial::BytecodeRa(0),
        SumcheckId::BytecodeReadRaf,
    );
    assert_eq!(opened, proof.read_raf.ra_openings[0]);

    // Another program is refused, and so are a wrong opening and a short transcript.
    let mut other = bytecode.clone();
    other[2].imm = 4;
    assert!(verdict(&proof, &other, narg.clone()).is_err());
    proof.read_raf.ra_openings[1] = proof.read_raf.ra_openings[1].add(F::from_u64(1));
    assert_eq!(
        verdict(&proof, &bytecode, narg),
        Err(ReadRafStageError::Claim)
    );
    assert_eq!(
        verdict(&proof, &bytecode, Vec::new()),
        Err(ReadRafStageError::Sumcheck)
    );
}

#[test]
fn combined_indices_are_spelled_by_their_chunks() {
    let widths = vec![3usize, 0, 2];
    let indices = vec![vec![5u32, 0, 7, 5], vec![0u32, 0, 0, 0], vec![1u32, 2, 3, 1]];
    let combined = combined_indices(&indices, &widths, 4);
    assert_eq!(combined, vec![21, 2, 31, 21]);
    let place = [4usize, 4, 1];
    for (j, row) in combined.iter().enumerate() {
        assert!(*row < 32);
        for i in 0..3 {
            assert_eq!((row / place[i]) % (1 << widths[i]), indices[i][j] as usize);
        }
    }
    // Cycles share a row exactly when they share all chunks.
    assert_eq!(combined[0], combined[3]);
    assert_ne!(combined[0], combined[1]);
}

#[test]
fn longer_weight_lists_are_allowed() {
    let bytecode = sample_bytecode();
    let g = sample_gammas();
    let eq_r: Vec<F> = (0..8).map(|i| F::from_u64(1000 + i)).collect();
    // Only the written registers are weighed by the second table.
    let eq_r5: Vec<F> = (0..4).map(|i| F::from_u64(2000 + i)).collect();
    let mut longer = sample_gammas();
    for weights in longer.iter_mut() {
        weights.push(F::from_u64(77));
    }
    assert_eq!(
        bytecode_val_polys(&bytecode, &longer, &eq_r, &eq_r5),
        bytecode_val_polys(&bytecode, &g, &eq_r, &eq_r5)
    );
}

#[test]
fn changed_seeds_are_refused() {
    let bytecode = sample_bytecode();
    let indices = vec![vec![0u32, 1, 1, 0], vec![1u32, 0, 1, 0]];
    let mut acc = Openings::<F>::new(2);
    let mut transcript = ProverTranscript::<F>::new(b"bytecode");
    let mut proof = prove_bytecode_read_raf(
        &bytecode,
        &indices,
        vec![1, 1],
        2,
        3,
        &mut acc,
        &mut transcript,
    );
    let narg = transcript.into_proof();
    for i in 0..N_BYTECODE_STAGES {
        let honest = proof.rv_seeds[i];
        proof.rv_seeds[i] = honest.add(F::from_u64(1));
        assert_eq!(
            verdict(&proof, &bytecode, narg.clone()),
            Err(ReadRafStageError::Sumcheck)
        );
        proof.rv_seeds[i] = honest;
    }
    assert_eq!(verdict(&proof, &bytecode, narg), Ok(()));
}
