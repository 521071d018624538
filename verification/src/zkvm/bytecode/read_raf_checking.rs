//! The read check of the bytecode: five columns of values, each a weighted combination of the
//! decoded fields of a bytecode row, are read at the row of every cycle.

use crate::field;
use crate::field::Field;
use crate::framework::accumulator;
use crate::framework::accumulator::{
    Claims, OpeningId, Openings, SumcheckId, VirtualPolynomial,
};
use crate::framework::poly;
use crate::framework::sums;
use crate::framework::transcript;
use crate::framework::transcript::{Challenge, FsState, ProverFs, VerifierFs};
use crate::zkvm::read_raf_stage;
use crate::zkvm::read_raf_stage::{
    InputsModel, ReadRafInputs, ReadRafStageError, ReadRafStageProof,
};
use crate::zkvm::shout_read_raf;
use crate::zkvm::shout_read_raf::{OneHotReadRafParams, RaFamily, ReadRafStage, StageModel};
use crate::zkvm::trace::{Instruction, NUM_CIRCUIT_FLAGS, NUM_LOOKUP_TABLES};
use vstd::arithmetic::power2::pow2;
use vstd::prelude::*;

verus! {

/// The number of chunks of a bytecode address.
pub const BYTECODE_D: usize = 2;

/// The number of value columns.
pub const N_BYTECODE_STAGES: usize = 5;

/// The sum of the weights behind `from` whose flags are set.
pub open spec fn flag_sum<F: Field>(flags: Seq<bool>, g: Seq<F>, from: int) -> F {
    sums::sum(flags.len() as int, |i: int| sums::flagged(flags[i], g[from + i]))
}

/// The weight of a register, zero where there is none.
pub open spec fn register_weight<F: Field>(r: Option<u8>, eq: Seq<F>) -> F {
    match r {
        Some(x) => eq[x as int],
        None => F::of_int(0),
    }
}

/// The flags of the product column.
pub open spec fn product_flags(row: Instruction) -> Seq<bool> {
    seq![
        row.circuit_flags.jump,
        row.instruction_flags.branch,
        row.circuit_flags.write_lookup_output_to_rd,
        row.circuit_flags.virtual_instruction,
    ]
}

/// The flags of the shift column.
pub open spec fn shift_flags(row: Instruction) -> Seq<bool> {
    seq![
        row.instruction_flags.left_operand_is_rs1_value,
        row.instruction_flags.left_operand_is_pc,
        row.instruction_flags.right_operand_is_rs2_value,
        row.instruction_flags.right_operand_is_imm,
        row.instruction_flags.is_noop,
        row.circuit_flags.virtual_instruction,
        row.circuit_flags.is_first_in_sequence,
    ]
}

/// The value of a bytecode row in column `s`.
pub open spec fn row_value<F: Field>(
    row: Instruction,
    s: int,
    g: Seq<F>,
    eq_r_register: Seq<F>,
    eq_r_register_5: Seq<F>,
) -> F {
    let addr = F::of_int(row.address as int);
    let imm = F::of_int(row.imm as int);
    if s == 0 {
        addr.plus(g[1].times(imm)).plus(flag_sum(row.circuit_flags.bits(), g, 2))
    } else if s == 1 {
        flag_sum(product_flags(row), g, 0)
    } else if s == 2 {
        imm.plus(g[1].times(addr)).plus(flag_sum(shift_flags(row), g, 2))
    } else if s == 3 {
        register_weight(row.rd, eq_r_register).times(g[0]).plus(
            register_weight(row.rs1, eq_r_register).times(g[1]),
        ).plus(register_weight(row.rs2, eq_r_register).times(g[2]))
    } else {
        register_weight(row.rd, eq_r_register_5).plus(
            sums::flagged(!row.circuit_flags.interleaved(), g[1]),
        ).plus(
            match row.lookup_table {
                Some(t) => g[2 + t],
                None => F::of_int(0),
            },
        )
    }
}

/// Value column `s` of a bytecode.
pub open spec fn value_column<F: Field>(
    bytecode: Seq<Instruction>,
    s: int,
    g: Seq<F>,
    eq_r_register: Seq<F>,
    eq_r_register_5: Seq<F>,
) -> Seq<F> {
    Seq::new(
        bytecode.len(),
        |k: int| row_value(bytecode[k], s, g, eq_r_register, eq_r_register_5),
    )
}

/// The registers and the lookup table of a row are in range.
pub open spec fn row_fits(row: Instruction, registers: nat) -> bool {
    &&& row.rd is Some ==> row.rd->0 < registers
    &&& row.rs1 is Some ==> row.rs1->0 < registers
    &&& row.rs2 is Some ==> row.rs2->0 < registers
    &&& row.lookup_table is Some ==> row.lookup_table->0 < NUM_LOOKUP_TABLES
}

/// The destination registers of all rows are in range.
pub open spec fn destinations_fit(bytecode: Seq<Instruction>, registers: nat) -> bool {
    forall|k: int|
        0 <= k < bytecode.len() ==> ((#[trigger] bytecode[k]).rd matches Some(r) ==> r < registers)
}

/// The registers and the lookup tables of all rows are in range.
pub open spec fn bytecode_fits(bytecode: Seq<Instruction>, registers: nat) -> bool {
    forall|k: int| 0 <= k < bytecode.len() ==> row_fits(#[trigger] bytecode[k], registers)
}

/// The number of weights of column `s`.
pub open spec fn gamma_len(s: int) -> nat {
    if s == 0 {
        (2 + NUM_CIRCUIT_FLAGS) as nat
    } else if s == 1 {
        4
    } else if s == 2 {
        9
    } else if s == 3 {
        3
    } else {
        (2 + NUM_LOOKUP_TABLES) as nat
    }
}

fn sum_flags<F: Field>(flags: &Vec<bool>, g: &Vec<F>, from: usize) -> (r: F)
    requires
        from + flags@.len() <= g@.len(),
    ensures
        r == flag_sum(flags@, g@, from as int),
{
    let total: usize = g.len();
    let mut out: F = field::zero();
    let ghost f = |i: int| sums::flagged(flags@[i], g@[from + i]);
    for i in 0..flags.len()
        invariant
            from + flags@.len() <= total,
            total == g@.len(),
            f == (|i: int| sums::flagged(flags@[i], g@[from + i])),
            out == sums::sum(i as int, f),
    {
        proof {
            sums::lemma_sum_valid(i as int, f);
            F::law_plus_zero(sums::sum(i as int, f));
        }
        if flags[i] {
            out = out.add(g[from + i]);
        }
    }
    out
}

fn weight_of<F: Field>(r: Option<u8>, eq: &[F]) -> (w: F)
    requires
        r is Some ==> r->0 < eq@.len(),
    ensures
        w == register_weight(r, eq@),
{
    match r {
        Some(x) => eq[x as usize],
        None => field::zero(),
    }
}

fn value_of<F: Field>(
    row: &Instruction,
    s: usize,
    g: &Vec<F>,
    eq_r_register: &[F],
    eq_r_register_5: &[F],
) -> (r: F)
    requires
        s < N_BYTECODE_STAGES,
        g@.len() >= gamma_len(s as int),
        row_fits(*row, eq_r_register@.len()),
        row.rd matches Some(r) ==> r < eq_r_register_5@.len(),
    ensures
        r == row_value(*row, s as int, g@, eq_r_register@, eq_r_register_5@),
{
    let addr: F = F::from_u64(row.address);
    let imm: F = F::from_i128(row.imm);
    if s == 0 {
        let mut flags: Vec<bool> = Vec::new();
        for t in 0..NUM_CIRCUIT_FLAGS
            invariant
                flags@ == row.circuit_flags.bits().take(t as int),
        {
            flags.push(row.circuit_flags.bit(t));
            assert(flags@ =~= row.circuit_flags.bits().take(t + 1));
        }
        assert(flags@ =~= row.circuit_flags.bits());
        addr.add(g[1].mul(imm)).add(sum_flags(&flags, g, 2))
    } else if s == 1 {
        let flags: Vec<bool> = vec![
            row.circuit_flags.jump,
            row.instruction_flags.branch,
            row.circuit_flags.write_lookup_output_to_rd,
            row.circuit_flags.virtual_instruction,
        ];
        assert(flags@ =~= product_flags(*row));
        sum_flags(&flags, g, 0)
    } else if s == 2 {
        let flags: Vec<bool> = vec![
            row.instruction_flags.left_operand_is_rs1_value,
            row.instruction_flags.left_operand_is_pc,
            row.instruction_flags.right_operand_is_rs2_value,
            row.instruction_flags.right_operand_is_imm,
            row.instruction_flags.is_noop,
            row.circuit_flags.virtual_instruction,
            row.circuit_flags.is_first_in_sequence,
        ];
        assert(flags@ =~= shift_flags(*row));
        imm.add(g[1].mul(addr)).add(sum_flags(&flags, g, 2))
    } else if s == 3 {
        weight_of(row.rd, eq_r_register).mul(g[0]).add(
            weight_of(row.rs1, eq_r_register).mul(g[1]),
        ).add(weight_of(row.rs2, eq_r_register).mul(g[2]))
    } else {
        let combined: F = if row.circuit_flags.is_interleaved_operands() {
            field::zero()
        } else {
            g[1]
        };
        let table: F = match row.lookup_table {
            Some(t) => g[2 + t],
            None => field::zero(),
        };
        weight_of(row.rd, eq_r_register_5).add(combined).add(table)
    }
}

fn column_of<F: Field>(
    bytecode: &[Instruction],
    s: usize,
    g: &Vec<F>,
    eq_r_register: &[F],
    eq_r_register_5: &[F],
) -> (r: Vec<F>)
    requires
        s < N_BYTECODE_STAGES,
        g@.len() >= gamma_len(s as int),
        bytecode_fits(bytecode@, eq_r_register@.len()),
        destinations_fit(bytecode@, eq_r_register_5@.len()),
    ensures
        r@ == value_column(bytecode@, s as int, g@, eq_r_register@, eq_r_register_5@),
{
    let mut out: Vec<F> = Vec::new();
    let ghost whole = value_column(bytecode@, s as int, g@, eq_r_register@, eq_r_register_5@);
    for k in 0..bytecode.len()
        invariant
            s < N_BYTECODE_STAGES,
            g@.len() >= gamma_len(s as int),
            bytecode_fits(bytecode@, eq_r_register@.len()),
            destinations_fit(bytecode@, eq_r_register_5@.len()),
            whole == value_column(bytecode@, s as int, g@, eq_r_register@, eq_r_register_5@),
            out@ == whole.take(k as int),
    {
        assert(row_fits(bytecode@[k as int], eq_r_register@.len()));
        out.push(value_of(&bytecode[k], s, g, eq_r_register, eq_r_register_5));
        assert(out@ =~= whole.take(k + 1));
    }
    assert(out@ =~= whole);
    out
}

/// The five value columns of a bytecode.
///
/// With `g` the weights of a column: the address, the immediate and the circuit flags; the flags of
/// a control transfer; the immediate, the address and the operand sources; the registers; and the
/// destination register, the operand layout and the lookup table.
pub fn bytecode_val_polys<F: Field>(
    bytecode: &[Instruction],
    stage_gammas: &[Vec<F>; N_BYTECODE_STAGES],
    eq_r_register: &[F],
    eq_r_register_5: &[F],
) -> (r: [Vec<F>; N_BYTECODE_STAGES])
    requires
        forall|s: int|
            0 <= s < N_BYTECODE_STAGES ==> (#[trigger] stage_gammas@[s])@.len() >= gamma_len(s),
        bytecode_fits(bytecode@, eq_r_register@.len()),
        destinations_fit(bytecode@, eq_r_register_5@.len()),
    ensures
        forall|s: int|
            0 <= s < N_BYTECODE_STAGES ==> (#[trigger] r@[s])@ == value_column(
                bytecode@,
                s,
                stage_gammas@[s]@,
                eq_r_register@,
                eq_r_register_5@,
            ),
{
    [
        column_of(bytecode, 0, &stage_gammas[0], eq_r_register, eq_r_register_5),
        column_of(bytecode, 1, &stage_gammas[1], eq_r_register, eq_r_register_5),
        column_of(bytecode, 2, &stage_gammas[2], eq_r_register, eq_r_register_5),
        column_of(bytecode, 3, &stage_gammas[3], eq_r_register, eq_r_register_5),
        column_of(bytecode, 4, &stage_gammas[4], eq_r_register, eq_r_register_5),
    ]
}

/// The read claims and the chunk openings the prover hands to the verifier.
#[derive(Debug)]
pub struct BytecodeReadRafProof<F> {
    pub rv_seeds: [F; N_BYTECODE_STAGES],
    pub read_raf: ReadRafStageProof<F>,
}

/// The name of the read claim of column `s`.
pub open spec fn rv_key(s: int) -> (VirtualPolynomial, SumcheckId) {
    if s == 0 {
        (VirtualPolynomial::UnexpandedPC, SumcheckId::SpartanOuter)
    } else if s == 1 {
        (VirtualPolynomial::PC, SumcheckId::SpartanProductVirtualization)
    } else if s == 2 {
        (VirtualPolynomial::Imm, SumcheckId::SpartanShift)
    } else if s == 3 {
        (VirtualPolynomial::PC, SumcheckId::SpartanOuter)
    } else {
        (VirtualPolynomial::RdWa, SumcheckId::SpartanProductVirtualization)
    }
}

/// The names of the read claims.
pub fn bytecode_rv_keys() -> (r: [(VirtualPolynomial, SumcheckId); N_BYTECODE_STAGES])
    ensures
        forall|s: int| 0 <= s < N_BYTECODE_STAGES ==> #[trigger] r@[s] == rv_key(s),
{
    [
        (VirtualPolynomial::UnexpandedPC, SumcheckId::SpartanOuter),
        (VirtualPolynomial::PC, SumcheckId::SpartanProductVirtualization),
        (VirtualPolynomial::Imm, SumcheckId::SpartanShift),
        (VirtualPolynomial::PC, SumcheckId::SpartanOuter),
        (VirtualPolynomial::RdWa, SumcheckId::SpartanProductVirtualization),
    ]
}

/// The number of weights of each column.
pub fn stage_gamma_lens() -> (r: [usize; N_BYTECODE_STAGES])
    ensures
        forall|s: int| 0 <= s < N_BYTECODE_STAGES ==> #[trigger] r@[s] == gamma_len(s),
{
    [2 + NUM_CIRCUIT_FLAGS, 4, 9, 3, 2 + NUM_LOOKUP_TABLES]
}

/// The first powers of a weight.
pub open spec fn powers<F: Field>(g: F, len: nat) -> Seq<F> {
    Seq::new(len, |i: int| sums::power(g, i))
}

/// The first powers of a weight.
pub fn gamma_powers<F: Field>(g: F, len: usize) -> (r: Vec<F>)
    ensures
        r@ == powers(g, len as nat),
{
    let mut out: Vec<F> = Vec::new();
    let mut p: F = field::one();
    for i in 0..len
        invariant
            p == sums::power(g, i as int),
            out@ == powers(g, i as nat),
    {
        out.push(p);
        assert(out@ =~= powers(g, (i + 1) as nat));
        p = p.mul(g);
    }
    out
}

/// The bytecode row of each of `t` cycles: the chunk indices combined by their place values.
pub fn combined_indices(
    indices: &Vec<Vec<u32>>,
    log_k_chunks: &Vec<usize>,
    t: usize,
) -> (r: Vec<usize>)
    requires
        indices@.len() == log_k_chunks@.len(),
        forall|i: int| 0 <= i < indices@.len() ==> (#[trigger] indices@[i])@.len() >= t,
        forall|j: int|
            0 <= j < t ==> #[trigger] read_raf_stage::cycle_fits(
                poly::contents(indices@),
                log_k_chunks@,
                j,
            ),
        pow2(shout_read_raf::address_bits(log_k_chunks@)) <= usize::MAX,
    ensures
        r@.len() == t,
        forall|j: int|
            0 <= j < t ==> #[trigger] r@[j] == read_raf_stage::address(
                poly::contents(indices@),
                log_k_chunks@,
                j,
            ),
{
    let ghost cols = poly::contents(indices@);
    let ghost ws = log_k_chunks@;
    let ghost bits = shout_read_raf::address_bits(ws);
    let d: usize = indices.len();
    let mut out: Vec<usize> = Vec::new();
    for j in 0..t
        invariant
            cols == poly::contents(indices@),
            ws == log_k_chunks@,
            d == indices@.len(),
            d == ws.len(),
            forall|i: int| 0 <= i < d ==> (#[trigger] indices@[i])@.len() >= t,
            forall|j: int| 0 <= j < t ==> #[trigger] read_raf_stage::cycle_fits(cols, ws, j),
            pow2(shout_read_raf::address_bits(ws)) <= usize::MAX,
            out@.len() == j,
            forall|i: int| 0 <= i < j ==> #[trigger] out@[i] == read_raf_stage::address(cols, ws, i),
    {
        assert(read_raf_stage::cycle_fits(cols, ws, j as int));
        let mut row: usize = 0;
        let mut i: usize = 0;
        while i < d
            invariant
                i <= d,
                cols == poly::contents(indices@),
                ws == log_k_chunks@,
                d == indices@.len(),
                j < t,
                d == ws.len(),
                forall|i: int| 0 <= i < d ==> (#[trigger] indices@[i])@.len() >= t,
                read_raf_stage::cycle_fits(cols, ws, j as int),
                pow2(shout_read_raf::address_bits(ws)) <= usize::MAX,
                row == read_raf_stage::spelled(cols, ws, j as int, i as int),
            decreases d - i,
        {
            let width: usize = log_k_chunks[i];
            proof {
                assert(cols[i as int] == indices@[i as int]@);
                let o = shout_read_raf::offset(ws, i as int);
                read_raf_stage::lemma_spelled_in_range(cols, ws, j as int, i as int);
                read_raf_stage::lemma_spelled_in_range(cols, ws, j as int, i + 1);
                shout_read_raf::lemma_offset_monotone(ws, i + 1, d as int);
                poly::lemma_pow2_monotone(
                    shout_read_raf::offset(ws, i + 1),
                    shout_read_raf::address_bits(ws),
                );
                poly::lemma_pow2_monotone(width as nat, shout_read_raf::address_bits(ws));
                poly::lemma_pow2_concat(o, width as nat);
                poly::lemma_row_bound(row as int, pow2(o) as int, pow2(width as nat) as int);
            }
            let dim: usize = poly::power_of_two(width);
            row = row * dim + indices[i][j] as usize;
            i = i + 1;
        }
        out.push(row);
    }
    out
}

/// The number of addresses that the chunks spell.
fn total_addresses(log_k_chunks: &Vec<usize>) -> (r: usize)
    requires
        pow2(shout_read_raf::address_bits(log_k_chunks@)) <= usize::MAX,
    ensures
        r == pow2(shout_read_raf::address_bits(log_k_chunks@)),
{
    let d: usize = log_k_chunks.len();
    let mut out: usize = 1;
    proof {
        poly::lemma_pow2_zero();
    }
    for i in 0..d
        invariant
            d == log_k_chunks@.len(),
            pow2(shout_read_raf::address_bits(log_k_chunks@)) <= usize::MAX,
            out == pow2(shout_read_raf::offset(log_k_chunks@, i as int)),
    {
        proof {
            let o = shout_read_raf::offset(log_k_chunks@, i as int);
            let w = log_k_chunks@[i as int] as nat;
            let bits = shout_read_raf::address_bits(log_k_chunks@);
            shout_read_raf::lemma_offset_monotone(log_k_chunks@, i + 1, d as int);
            poly::lemma_pow2_monotone(w, bits);
            poly::lemma_pow2_monotone(o + w, bits);
            poly::lemma_pow2_concat(o, w);
        }
        out = out * poly::power_of_two(log_k_chunks[i]);
    }
    out
}

/// The weights of column `s`, from the first five challenges.
pub open spec fn drawn_gammas<F: Field>(s: FsState<F>, i: int) -> Seq<F> {
    powers(s.coins(5)[i], gamma_len(i))
}

/// The state after `i` cycle points are drawn.
pub open spec fn after_points<F: Field>(s: FsState<F>, log_t: nat, i: int) -> FsState<F>
    decreases i,
{
    if i <= 0 {
        s
    } else {
        after_points(s, log_t, i - 1).squeeze_n(log_t)
    }
}

/// The state after the weights and the two register points are drawn.
pub open spec fn after_registers<F: Field>(s: FsState<F>, log_register: nat) -> FsState<F> {
    s.squeeze_n(5).squeeze_n(log_register).squeeze_n(log_register)
}

/// A column cut or padded with zeros to a length.
pub open spec fn resized<F: Field>(column: Seq<F>, len: nat) -> Seq<F> {
    Seq::new(
        len,
        |k: int|
            if k < column.len() {
                column[k]
            } else {
                F::of_int(0)
            },
    )
}

/// The read claim of column `i` with all challenges drawn.
pub open spec fn stage_at<F: Field>(
    bytecode: Seq<Instruction>,
    widths: Seq<usize>,
    log_t: nat,
    log_register: nat,
    s: FsState<F>,
    i: int,
) -> StageModel<F> {
    let r_register = s.squeeze_n(5).coins(log_register);
    let r_register_5 = s.squeeze_n(5).squeeze_n(log_register).coins(log_register);
    StageModel {
        r_cycle: after_points(after_registers(s, log_register), log_t, i).coins(log_t),
        val_addr: resized(
            value_column(
                bytecode,
                i,
                drawn_gammas(s, i),
                poly::eq_table(r_register),
                poly::eq_table(r_register_5),
            ),
            pow2(shout_read_raf::address_bits(widths)),
        ),
        rv_key: rv_key(i),
    }
}

/// All read claims with all challenges drawn.
pub open spec fn setup<F: Field>(
    bytecode: Seq<Instruction>,
    widths: Seq<usize>,
    log_t: nat,
    log_register: nat,
    s: FsState<F>,
) -> Seq<StageModel<F>> {
    Seq::new(5, |i: int| stage_at(bytecode, widths, log_t, log_register, s, i))
}

/// The state after all challenges of the read claims are drawn.
pub open spec fn setup_state<F: Field>(s: FsState<F>, log_t: nat, log_register: nat) -> FsState<F> {
    after_points(after_registers(s, log_register), log_t, 5)
}

fn resize_column<F: Field>(column: &Vec<F>, len: usize) -> (r: Vec<F>)
    ensures
        r@ == resized(column@, len as nat),
{
    let mut out: Vec<F> = Vec::new();
    let have: usize = column.len();
    for k in 0..len
        invariant
            have == column@.len(),
            out@ == resized(column@, len as nat).take(k as int),
    {
        if k < have {
            out.push(column[k]);
        } else {
            out.push(field::zero());
        }
        assert(out@ =~= resized(column@, len as nat).take(k + 1));
    }
    assert(out@ =~= resized(column@, len as nat));
    out
}

/// Draw the weights and the points and build the read claims.
pub fn bytecode_read_raf_setup<F: Field, T: Challenge<F>>(
    bytecode: &[Instruction],
    log_k_chunks: &Vec<usize>,
    log_t: usize,
    log_register: usize,
    transcript: &mut T,
) -> (r: Vec<ReadRafStage<F>>)
    requires
        pow2(log_register as nat) <= usize::MAX,
        pow2(shout_read_raf::address_bits(log_k_chunks@)) <= usize::MAX,
        bytecode_fits(bytecode@, pow2(log_register as nat)),
    ensures
        shout_read_raf::models(r@) == setup(
            bytecode@,
            log_k_chunks@,
            log_t as nat,
            log_register as nat,
            old(transcript).state(),
        ),
        final(transcript).state() == setup_state(
            old(transcript).state(),
            log_t as nat,
            log_register as nat,
        ),
{
    let ghost s = transcript.state();
    let k_total: usize = total_addresses(log_k_chunks);
    let coins: Vec<F> = transcript::challenge_vector(transcript, N_BYTECODE_STAGES);
    proof {
        transcript::lemma_coins_len(s, 5);
    }
    let lens: [usize; N_BYTECODE_STAGES] = stage_gamma_lens();
    let stage_gammas: [Vec<F>; N_BYTECODE_STAGES] = [
        gamma_powers(coins[0], lens[0]),
        gamma_powers(coins[1], lens[1]),
        gamma_powers(coins[2], lens[2]),
        gamma_powers(coins[3], lens[3]),
        gamma_powers(coins[4], lens[4]),
    ];
    proof {
        assert forall|i: int| 0 <= i < 5 implies (#[trigger] stage_gammas@[i])@ == drawn_gammas(s, i) by {
            assert(lens@[i] == gamma_len(i));
        }
        transcript::lemma_coins_len(s.squeeze_n(5), log_register as nat);
        transcript::lemma_coins_len(
            s.squeeze_n(5).squeeze_n(log_register as nat),
            log_register as nat,
        );
    }
    let r_register: Vec<F> = transcript::challenge_vector(transcript, log_register);
    let eq_r_register: Vec<F> = poly::eq_evals(&r_register);
    let r_register_5: Vec<F> = transcript::challenge_vector(transcript, log_register);
    let eq_r_register_5: Vec<F> = poly::eq_evals(&r_register_5);
    let vals: [Vec<F>; N_BYTECODE_STAGES] = bytecode_val_polys(
        bytecode,
        &stage_gammas,
        &eq_r_register,
        &eq_r_register_5,
    );
    let keys: [(VirtualPolynomial, SumcheckId); N_BYTECODE_STAGES] = bytecode_rv_keys();
    let ghost s3 = after_registers(s, log_register as nat);
    let ghost whole = setup(bytecode@, log_k_chunks@, log_t as nat, log_register as nat, s);
    let mut out: Vec<ReadRafStage<F>> = Vec::new();
    assert(shout_read_raf::models(out@) =~= whole.take(0));
    for i in 0..N_BYTECODE_STAGES
        invariant
            transcript.state() == after_points(s3, log_t as nat, i as int),
            s3 == after_registers(s, log_register as nat),
            whole == setup(bytecode@, log_k_chunks@, log_t as nat, log_register as nat, s),
            k_total == pow2(shout_read_raf::address_bits(log_k_chunks@)),
            forall|s: int| 0 <= s < N_BYTECODE_STAGES ==> #[trigger] keys@[s] == rv_key(s),
            forall|c: int|
                0 <= c < N_BYTECODE_STAGES ==> (#[trigger] vals@[c])@ == value_column(
                    bytecode@,
                    c,
                    stage_gammas@[c]@,
                    eq_r_register@,
                    eq_r_register_5@,
                ),
            forall|c: int|
                0 <= c < N_BYTECODE_STAGES ==> (#[trigger] stage_gammas@[c])@ == drawn_gammas(s, c),
            eq_r_register@ == poly::eq_table(s.squeeze_n(5).coins(log_register as nat)),
            eq_r_register_5@ == poly::eq_table(
                s.squeeze_n(5).squeeze_n(log_register as nat).coins(log_register as nat),
            ),
            shout_read_raf::models(out@) == whole.take(i as int),
    {
        let ghost before = out@;
        let r_cycle: Vec<F> = transcript::challenge_vector(transcript, log_t);
        let val_addr: Vec<F> = resize_column(&vals[i], k_total);
        let stage: ReadRafStage<F> = ReadRafStage { r_cycle, val_addr, rv_key: keys[i] };
        assert(stage@ == whole[i as int]) by {
            assert(vals@[i as int]@ == value_column(
                bytecode@,
                i as int,
                stage_gammas@[i as int]@,
                eq_r_register@,
                eq_r_register_5@,
            ));
            assert(stage_gammas@[i as int]@ == drawn_gammas(s, i as int));
            assert(keys@[i as int] == rv_key(i as int));
        }
        out.push(stage);
        assert(shout_read_raf::models(out@) =~= shout_read_raf::models(before).push(stage@));
        assert(whole.take(i + 1) =~= whole.take(i as int).push(whole[i as int]));
    }
    assert(whole.take(5) =~= whole);
    out
}

/// What the read check of the bytecode is about.
pub open spec fn inputs<F: Field>(
    widths: Seq<usize>,
    log_t: nat,
    stages: Seq<StageModel<F>>,
) -> InputsModel<F> {
    InputsModel {
        family: RaFamily::Bytecode,
        id: SumcheckId::BytecodeReadRaf,
        widths,
        log_t,
        stages,
    }
}

/// What the read check of the bytecode is about.
pub fn bytecode_read_raf_inputs<F: Field>(
    log_k_chunks: Vec<usize>,
    log_t: usize,
    stages: Vec<ReadRafStage<F>>,
) -> (r: ReadRafInputs<F>)
    ensures
        r@ == inputs(log_k_chunks@, log_t as nat, shout_read_raf::models(stages@)),
{
    ReadRafInputs {
        ra_family: RaFamily::Bytecode,
        sumcheck_id: SumcheckId::BytecodeReadRaf,
        log_k_chunks,
        log_t,
        stages,
    }
}

/// The batch of the read claims of the bytecode, with a fresh challenge.
pub fn bytecode_read_raf_params<F: Field, T: Challenge<F>>(
    log_k_chunks: Vec<usize>,
    log_t: usize,
    stages: Vec<ReadRafStage<F>>,
    transcript: &mut T,
) -> (r: OneHotReadRafParams<F>)
    ensures
        r@ == inputs(log_k_chunks@, log_t as nat, shout_read_raf::models(stages@)).batched(
            old(transcript).state().next(),
        ),
        final(transcript).state() == old(transcript).state().squeeze(),
{
    let r: OneHotReadRafParams<F> = OneHotReadRafParams::new(
        RaFamily::Bytecode,
        SumcheckId::BytecodeReadRaf,
        log_k_chunks,
        log_t,
        stages,
        transcript,
    );
    assert(r@ =~= inputs(log_k_chunks@, log_t as nat, shout_read_raf::models(stages@)).batched(
        old(transcript).state().next(),
    ));
    r
}

/// The true value of every read claim.
pub open spec fn true_seeds<F: Field>(
    stages: Seq<StageModel<F>>,
    indices: Seq<Seq<u32>>,
    widths: Seq<usize>,
    log_t: nat,
) -> Seq<F> {
    Seq::new(
        stages.len(),
        |i: int| read_raf_stage::true_read(stages[i], indices, widths, log_t),
    )
}

/// The claims after the first `n` read claims are recorded.
pub open spec fn seeded<F: Field>(
    acc: Claims<F>,
    stages: Seq<StageModel<F>>,
    seeds: Seq<F>,
    n: int,
) -> Claims<F>
    decreases n,
{
    if n <= 0 {
        acc
    } else {
        seeded(acc, stages, seeds, n - 1).insert(
            shout_read_raf::rv_id(stages[n - 1]),
            (stages[n - 1].r_cycle, seeds[n - 1]),
        )
    }
}

/// The sizes fit the machine.
pub open spec fn sized(widths: Seq<usize>, log_t: nat, log_register: nat) -> bool {
    let bits = shout_read_raf::address_bits(widths);
    &&& widths.len() + 1 < usize::MAX
    &&& bits + log_t <= usize::MAX
    &&& pow2(bits + log_t) <= usize::MAX
    &&& pow2(log_register) <= usize::MAX
}

proof fn lemma_sizes<F: Field>(
    bytecode: Seq<Instruction>,
    widths: Seq<usize>,
    log_t: nat,
    log_register: nat,
    s: FsState<F>,
)
    requires
        sized(widths, log_t, log_register),
    ensures
        inputs(widths, log_t, setup(bytecode, widths, log_t, log_register, s)).sized(),
        pow2(shout_read_raf::address_bits(widths)) <= usize::MAX,
        pow2(log_t) <= usize::MAX,
{
    let bits = shout_read_raf::address_bits(widths);
    poly::lemma_pow2_monotone(bits, bits + log_t);
    poly::lemma_pow2_monotone(log_t, bits + log_t);
    let stages = setup(bytecode, widths, log_t, log_register, s);
    assert forall|i: int| 0 <= i < stages.len() implies (#[trigger] stages[i]).r_cycle.len() == log_t
        && stages[i].val_addr.len() == pow2(bits) by {
        transcript::lemma_coins_len(
            after_points(after_registers(s, log_register), log_t, i),
            log_t,
        );
    }
}

/// The value of a read claim at the rows of all cycles.
fn read_at<F: Field>(stage: &ReadRafStage<F>, rows: &Vec<usize>) -> (r: F)
    requires
        pow2(stage@.r_cycle.len()) <= usize::MAX,
        rows@.len() == pow2(stage@.r_cycle.len()),
        forall|j: int| 0 <= j < rows@.len() ==> #[trigger] rows@[j] < stage@.val_addr.len(),
    ensures
        r == sums::sum(
            rows@.len() as int,
            |j: int|
                poly::eq_weight(stage@.r_cycle, j).times(stage@.val_addr[rows@[j] as int]),
        ),
{
    let eq: Vec<F> = poly::eq_evals(&stage.r_cycle);
    let t: usize = rows.len();
    let ghost f = |j: int|
        poly::eq_weight(stage@.r_cycle, j).times(stage@.val_addr[rows@[j] as int]);
    let mut out: F = field::zero();
    for j in 0..t
        invariant
            t == rows@.len(),
            t == eq@.len(),
            eq@ == poly::eq_table(stage@.r_cycle),
            forall|j: int| 0 <= j < rows@.len() ==> #[trigger] rows@[j] < stage@.val_addr.len(),
            f == (|j: int|
                poly::eq_weight(stage@.r_cycle, j).times(stage@.val_addr[rows@[j] as int])),
            out == sums::sum(j as int, f),
    {
        let row: usize = rows[j];
        out = out.add(eq[j].mul(stage.val_addr[row]));
    }
    out
}

/// The read claims, the chunk openings, the records and the transcript of an honest check.
pub open spec fn honest<F: Field>(
    bytecode: Seq<Instruction>,
    indices: Seq<Seq<u32>>,
    widths: Seq<usize>,
    log_t: nat,
    log_register: nat,
    acc: Claims<F>,
    s: FsState<F>,
) -> (Seq<F>, Seq<F>, Claims<F>, FsState<F>) {
    let stages = setup(bytecode, widths, log_t, log_register, s);
    let seeds = true_seeds(stages, indices, widths, log_t);
    let (openings, acc1, s1) = read_raf_stage::honest(
        inputs(widths, log_t, stages),
        read_raf_stage::chunk_columns::<F>(indices, widths),
        seeded(acc, stages, seeds, 5),
        setup_state(s, log_t, log_register),
    );
    (seeds, openings, acc1, s1)
}

/// Prove the reads of the bytecode, given the chunk indices of the row of every cycle.
pub fn prove_bytecode_read_raf<F: Field, T: ProverFs<F>>(
    bytecode: &[Instruction],
    indices: &Vec<Vec<u32>>,
    log_k_chunks: Vec<usize>,
    log_t: usize,
    log_register: usize,
    accumulator: &mut Openings<F>,
    transcript: &mut T,
) -> (proof: BytecodeReadRafProof<F>)
    requires
        sized(log_k_chunks@, log_t as nat, log_register as nat),
        bytecode_fits(bytecode@, pow2(log_register as nat)),
        read_raf_stage::indices_fit(poly::contents(indices@), log_k_chunks@, log_t as nat),
    ensures
        (
            proof.rv_seeds@,
            proof.read_raf.ra_openings@,
            final(accumulator)@,
            final(transcript).state(),
        ) == honest(
            bytecode@,
            poly::contents(indices@),
            log_k_chunks@,
            log_t as nat,
            log_register as nat,
            old(accumulator)@,
            old(transcript).state(),
        ),
{
    let ghost s = transcript.state();
    let ghost acc0 = accumulator@;
    let ghost cols = poly::contents(indices@);
    let ghost ws = log_k_chunks@;
    proof {
        lemma_sizes(bytecode@, ws, log_t as nat, log_register as nat, s);
    }
    let stages: Vec<ReadRafStage<F>> = bytecode_read_raf_setup(
        bytecode,
        &log_k_chunks,
        log_t,
        log_register,
        transcript,
    );
    let ghost models = shout_read_raf::models(stages@);
    let ghost seeds = true_seeds(models, cols, ws, log_t as nat);
    proof {
        assert forall|i: int| 0 <= i < indices@.len() implies (#[trigger] indices@[i])@.len()
            >= pow2(log_t as nat) by {
            assert(cols[i] == indices@[i]@);
        }
        assert forall|j: int|
            0 <= j < pow2(log_t as nat) implies #[trigger] read_raf_stage::cycle_fits(
            cols,
            ws,
            j,
        ) by {
            assert forall|i: int| 0 <= i < ws.len() implies #[trigger] cols[i][j] < pow2(
                ws[i] as nat,
            ) by {}
        }
    }
    let cycles: usize = poly::power_of_two(log_t);
    let combined: Vec<usize> = combined_indices(indices, &log_k_chunks, cycles);
    let zero: F = field::zero();
    let mut rv_seeds: [F; N_BYTECODE_STAGES] = [zero, zero, zero, zero, zero];
    for i in 0..N_BYTECODE_STAGES
        invariant
            models == shout_read_raf::models(stages@),
            models == setup(bytecode@, ws, log_t as nat, log_register as nat, s),
            inputs(ws, log_t as nat, models).sized(),
            seeds == true_seeds(models, cols, ws, log_t as nat),
            read_raf_stage::indices_fit(cols, ws, log_t as nat),
            pow2(log_t as nat) <= usize::MAX,
            combined@.len() == pow2(log_t as nat),
            forall|j: int|
                0 <= j < pow2(log_t as nat) ==> #[trigger] combined@[j] == read_raf_stage::address(
                    cols,
                    ws,
                    j,
                ),
            rv_seeds@.len() == 5,
            forall|c: int| 0 <= c < i ==> #[trigger] rv_seeds@[c] == seeds[c],
            accumulator@ == seeded(acc0, models, seeds, i as int),
    {
        let stage: &ReadRafStage<F> = &stages[i];
        proof {
            assert(models[i as int] == stage@);
            assert(inputs(ws, log_t as nat, models).stages[i as int].r_cycle.len() == log_t);
            assert forall|j: int| 0 <= j < combined@.len() implies #[trigger] combined@[j]
                < stage@.val_addr.len() by {
                assert(read_raf_stage::cycle_fits(cols, ws, j));
                read_raf_stage::lemma_spelled_in_range(cols, ws, j, ws.len() as int);
            }
        }
        let rv: F = read_at(stage, &combined);
        proof {
            sums::lemma_sum_ext(
                pow2(log_t as nat) as int,
                |j: int|
                    poly::eq_weight(stage@.r_cycle, j).times(
                        stage@.val_addr[combined@[j] as int],
                    ),
                |j: int|
                    poly::eq_weight(stage@.r_cycle, j).times(
                        stage@.val_addr[read_raf_stage::address(cols, ws, j)],
                    ),
            );
        }
        rv_seeds[i] = rv;
        accumulator.append_virtual(
            stage.rv_key.0,
            stage.rv_key.1,
            poly::copied(&stage.r_cycle),
            rv,
        );
    }
    assert(rv_seeds@ =~= seeds);
    let inputs_of: ReadRafInputs<F> = bytecode_read_raf_inputs(log_k_chunks, log_t, stages);
    let read_raf: ReadRafStageProof<F> = read_raf_stage::prove_read_raf(
        indices,
        inputs_of,
        accumulator,
        transcript,
    );
    BytecodeReadRafProof { rv_seeds, read_raf }
}

/// The verdict on a check of the bytecode, the recorded claims, and the transcript after it.
pub open spec fn verdict<F: Field>(
    seeds: Seq<F>,
    openings: Seq<F>,
    bytecode: Seq<Instruction>,
    widths: Seq<usize>,
    log_t: nat,
    log_register: nat,
    acc: Claims<F>,
    s: FsState<F>,
) -> (Result<(), ReadRafStageError>, Claims<F>, FsState<F>) {
    let stages = setup(bytecode, widths, log_t, log_register, s);
    read_raf_stage::verdict(
        openings,
        inputs(widths, log_t, stages),
        seeded(acc, stages, seeds, 5),
        setup_state(s, log_t, log_register),
    )
}

/// Verify the reads of the bytecode.
pub fn verify_bytecode_read_raf<F: Field, T: VerifierFs<F>>(
    proof: &BytecodeReadRafProof<F>,
    bytecode: &[Instruction],
    log_k_chunks: Vec<usize>,
    log_t: usize,
    log_register: usize,
    accumulator: &mut Openings<F>,
    transcript: &mut T,
) -> (r: Result<(), ReadRafStageError>)
    requires
        sized(log_k_chunks@, log_t as nat, log_register as nat),
        bytecode_fits(bytecode@, pow2(log_register as nat)),
        proof.read_raf.ra_openings@.len() == log_k_chunks@.len(),
    ensures
        (r, final(accumulator)@, final(transcript).state()) == verdict(
            proof.rv_seeds@,
            proof.read_raf.ra_openings@,
            bytecode@,
            log_k_chunks@,
            log_t as nat,
            log_register as nat,
            old(accumulator)@,
            old(transcript).state(),
        ),
{
    let ghost s = transcript.state();
    let ghost acc0 = accumulator@;
    let ghost ws = log_k_chunks@;
    proof {
        lemma_sizes(bytecode@, ws, log_t as nat, log_register as nat, s);
    }
    let stages: Vec<ReadRafStage<F>> = bytecode_read_raf_setup(
        bytecode,
        &log_k_chunks,
        log_t,
        log_register,
        transcript,
    );
    let ghost models = shout_read_raf::models(stages@);
    for i in 0..N_BYTECODE_STAGES
        invariant
            models == shout_read_raf::models(stages@),
            models.len() == 5,
            accumulator@ == seeded(acc0, models, proof.rv_seeds@, i as int),
    {
        let stage: &ReadRafStage<F> = &stages[i];
        assert(models[i as int] == stage@);
        accumulator.append_virtual(
            stage.rv_key.0,
            stage.rv_key.1,
            poly::copied(&stage.r_cycle),
            proof.rv_seeds[i],
        );
    }
    proof {
        assert forall|i: int| 0 <= i < 5 implies accumulator@.contains_key(
            #[trigger] shout_read_raf::rv_id(models[i]),
        ) by {
            lemma_seeded(acc0, models, proof.rv_seeds@, 5, i);
        }
    }
    let inputs_of: ReadRafInputs<F> = bytecode_read_raf_inputs(log_k_chunks, log_t, stages);
    read_raf_stage::verify_read_raf(&proof.read_raf, inputs_of, accumulator, transcript)
}

/// Every recorded read claim stays.
proof fn lemma_seeded<F: Field>(
    acc: Claims<F>,
    stages: Seq<StageModel<F>>,
    seeds: Seq<F>,
    n: int,
    i: int,
)
    requires
        0 <= i < n <= 5,
        stages.len() == 5,
        forall|c: int| 0 <= c < 5 ==> (#[trigger] stages[c]).rv_key == rv_key(c),
    ensures
        seeded(acc, stages, seeds, n).contains_key(shout_read_raf::rv_id(stages[i])),
        seeded(acc, stages, seeds, n)[shout_read_raf::rv_id(stages[i])] == (
            stages[i].r_cycle,
            seeds[i],
        ),
    decreases n,
{
    if i < n - 1 {
        lemma_seeded(acc, stages, seeds, n - 1, i);
        assert(stages[i].rv_key == rv_key(i));
        assert(stages[n - 1].rv_key == rv_key(n - 1));
        assert(rv_key(i) != rv_key(n - 1));
    }
}

/// Two synchronised parties draw the same read claims and stay synchronised.
proof fn lemma_setup_synced<F: Field>(
    bytecode: Seq<Instruction>,
    widths: Seq<usize>,
    log_t: nat,
    log_register: nat,
    p: FsState<F>,
    v: FsState<F>,
    whole: Seq<F>,
)
    requires
        transcript::synced(p, v, whole),
    ensures
        setup(bytecode, widths, log_t, log_register, p) == setup(
            bytecode,
            widths,
            log_t,
            log_register,
            v,
        ),
        transcript::synced(
            setup_state(p, log_t, log_register),
            setup_state(v, log_t, log_register),
            whole,
        ),
        setup_state(p, log_t, log_register).canonical() == p.canonical(),
        setup_state(p, log_t, log_register).tape == p.tape,
{
    let p1 = p.squeeze_n(5);
    let v1 = v.squeeze_n(5);
    let p2 = p1.squeeze_n(log_register);
    let v2 = v1.squeeze_n(log_register);
    let p3 = p2.squeeze_n(log_register);
    let v3 = v2.squeeze_n(log_register);
    transcript::lemma_synced_squeeze_n(p, v, whole, 5);
    transcript::lemma_synced_squeeze_n(p1, v1, whole, log_register);
    transcript::lemma_synced_squeeze_n(p2, v2, whole, log_register);
    transcript::lemma_coins_len(p, 5);
    transcript::lemma_coins_len(p1, log_register);
    transcript::lemma_coins_len(p2, log_register);
    assert forall|i: int| 0 <= i < 5 implies #[trigger] stage_at(
        bytecode,
        widths,
        log_t,
        log_register,
        p,
        i,
    ) == stage_at(bytecode, widths, log_t, log_register, v, i) by {
        lemma_points_synced(p3, v3, whole, log_t, i);
        transcript::lemma_synced_squeeze_n(
            after_points(p3, log_t, i),
            after_points(v3, log_t, i),
            whole,
            log_t,
        );
    }
    lemma_points_synced(p3, v3, whole, log_t, 5);
    assert(setup(bytecode, widths, log_t, log_register, p) =~= setup(
        bytecode,
        widths,
        log_t,
        log_register,
        v,
    ));
}

proof fn lemma_points_synced<F: Field>(
    p: FsState<F>,
    v: FsState<F>,
    whole: Seq<F>,
    log_t: nat,
    i: int,
)
    requires
        transcript::synced(p, v, whole),
        i >= 0,
    ensures
        transcript::synced(after_points(p, log_t, i), after_points(v, log_t, i), whole),
        after_points(p, log_t, i).canonical() == p.canonical(),
        after_points(p, log_t, i).tape == p.tape,
    decreases i,
{
    if i > 0 {
        lemma_points_synced(p, v, whole, log_t, i - 1);
        transcript::lemma_synced_squeeze_n(
            after_points(p, log_t, i - 1),
            after_points(v, log_t, i - 1),
            whole,
            log_t,
        );
        transcript::lemma_coins_len(after_points(p, log_t, i - 1), log_t);
    }
}

/// Completeness: the honest check of a bytecode is accepted, both parties record the same claims,
/// and the recorded chunk openings are true.
pub proof fn law_complete<F: Field>(
    bytecode: Seq<Instruction>,
    indices: Seq<Seq<u32>>,
    widths: Seq<usize>,
    log_t: nat,
    log_register: nat,
    acc: Claims<F>,
    p: FsState<F>,
    v: FsState<F>,
    whole: Seq<F>,
)
    requires
        sized(widths, log_t, log_register),
        read_raf_stage::indices_fit(indices, widths, log_t),
        p.canonical(),
        transcript::synced(p, v, whole),
        honest(bytecode, indices, widths, log_t, log_register, acc, p).3.tape.is_prefix_of(whole),
    ensures
        ({
            let columns = read_raf_stage::chunk_columns::<F>(indices, widths);
            let (seeds, openings, acc1, p1) = honest(
                bytecode,
                indices,
                widths,
                log_t,
                log_register,
                acc,
                p,
            );
            let (r, acc2, v1) = verdict(
                seeds,
                openings,
                bytecode,
                widths,
                log_t,
                log_register,
                acc,
                v,
            );
            &&& r is Ok
            &&& acc2 == acc1
            &&& transcript::synced(p1, v1, whole)
            &&& p1.canonical()
            &&& forall|i: int|
                0 <= i < widths.len() ==> (#[trigger] acc1[chunk_id(i)]).1 == poly::mle(
                    columns[i],
                    acc1[chunk_id(i)].0,
                )
        }),
{
    let stages = setup(bytecode, widths, log_t, log_register, p);
    let seeds = true_seeds(stages, indices, widths, log_t);
    let acc1 = seeded(acc, stages, seeds, 5);
    let p1 = setup_state(p, log_t, log_register);
    lemma_sizes(bytecode, widths, log_t, log_register, p);
    lemma_setup_synced(bytecode, widths, log_t, log_register, p, v, whole);
    let inp = inputs(widths, log_t, stages);
    assert forall|i: int| 0 <= i < 5 implies acc1[#[trigger] shout_read_raf::rv_id(stages[i])].1
        == read_raf_stage::true_read(stages[i], indices, widths, log_t) by {
        lemma_seeded(acc, stages, seeds, 5, i);
    }
    read_raf_stage::law_complete(
        inp,
        indices,
        acc1,
        p1,
        setup_state(v, log_t, log_register),
        whole,
    );
    let last = honest(bytecode, indices, widths, log_t, log_register, acc, p).2;
    assert forall|i: int| 0 <= i < widths.len() implies (#[trigger] last[chunk_id(i)]).1
        == poly::mle(
        read_raf_stage::chunk_columns::<F>(indices, widths)[i],
        last[chunk_id(i)].0,
    ) by {
        assert(inp.batched(p1.next()).chunk_id(i) == chunk_id(i));
    }
}

/// The committed claims of other checks.
pub open spec fn foreign(id: OpeningId) -> bool {
    match id {
        OpeningId::Committed(_, s) => s != SumcheckId::BytecodeReadRaf,
        OpeningId::Virtual(_, _) => false,
    }
}

/// Recording read claims keeps the committed claims.
proof fn lemma_seeded_keeps<F: Field>(
    acc: Claims<F>,
    stages: Seq<StageModel<F>>,
    seeds: Seq<F>,
    n: int,
    id: OpeningId,
)
    requires
        foreign(id),
    ensures
        seeded(acc, stages, seeds, n).contains_key(id) == acc.contains_key(id),
        seeded(acc, stages, seeds, n)[id] == acc[id],
    decreases n,
{
    if n > 0 {
        lemma_seeded_keeps(acc, stages, seeds, n - 1, id);
    }
}

/// The chunk openings are recorded at the parts of one point.
pub open spec fn records<F: Field>(
    widths: Seq<usize>,
    log_t: nat,
    acc: Claims<F>,
    xs: Seq<F>,
) -> bool {
    read_raf_stage::records(inputs(widths, log_t, Seq::<StageModel<F>>::empty()), acc, xs)
}

/// What an honest check of a bytecode leaves behind: its records, the committed claims of other
/// checks, and a longer tape.
pub proof fn lemma_honest_leaves<F: Field>(
    bytecode: Seq<Instruction>,
    indices: Seq<Seq<u32>>,
    widths: Seq<usize>,
    log_t: nat,
    log_register: nat,
    acc: Claims<F>,
    s: FsState<F>,
)
    requires
        widths.len() <= usize::MAX,
    ensures
        ({
            let (_, _, acc1, s1) = honest(bytecode, indices, widths, log_t, log_register, acc, s);
            &&& exists|xs: Seq<F>| #[trigger] records(widths, log_t, acc1, xs)
            &&& forall|id: OpeningId| foreign(id) ==> #[trigger] accumulator::kept(acc, acc1, id)
            &&& s.tape.is_prefix_of(s1.tape)
        }),
{
    let stages = setup(bytecode, widths, log_t, log_register, s);
    let seeds = true_seeds(stages, indices, widths, log_t);
    let inp = inputs(widths, log_t, stages);
    let columns = read_raf_stage::chunk_columns::<F>(indices, widths);
    let mid = seeded(acc, stages, seeds, 5);
    let s1 = setup_state(s, log_t, log_register);
    read_raf_stage::lemma_honest_leaves(inp, columns, mid, s1);
    let acc1 = honest(bytecode, indices, widths, log_t, log_register, acc, s).2;
    let xs = choose|xs: Seq<F>| #[trigger] read_raf_stage::records(inp, acc1, xs);
    lemma_same_records(inp, acc1, xs);
    assert forall|id: OpeningId| foreign(id) implies #[trigger] accumulator::kept(acc, acc1, id) by {
        lemma_seeded_keeps(acc, stages, seeds, 5, id);
        assert(read_raf_stage::foreign(id, SumcheckId::BytecodeReadRaf));
        assert(accumulator::kept(mid, acc1, id));
    }
    lemma_setup_tape(s, log_t, log_register);
}

/// What an accepted check of a bytecode leaves behind.
pub proof fn lemma_verdict_leaves<F: Field>(
    seeds: Seq<F>,
    openings: Seq<F>,
    bytecode: Seq<Instruction>,
    widths: Seq<usize>,
    log_t: nat,
    log_register: nat,
    acc: Claims<F>,
    s: FsState<F>,
)
    requires
        widths.len() <= usize::MAX,
        verdict(seeds, openings, bytecode, widths, log_t, log_register, acc, s).0 is Ok,
    ensures
        ({
            let acc1 = verdict(
                seeds,
                openings,
                bytecode,
                widths,
                log_t,
                log_register,
                acc,
                s,
            ).1;
            &&& exists|xs: Seq<F>| #[trigger] records(widths, log_t, acc1, xs)
            &&& forall|id: OpeningId| foreign(id) ==> #[trigger] accumulator::kept(acc, acc1, id)
        }),
{
    let stages = setup(bytecode, widths, log_t, log_register, s);
    let inp = inputs(widths, log_t, stages);
    let mid = seeded(acc, stages, seeds, 5);
    let s1 = setup_state(s, log_t, log_register);
    read_raf_stage::lemma_verdict_leaves(openings, inp, mid, s1);
    let acc1 = read_raf_stage::verdict(openings, inp, mid, s1).1;
    let xs = choose|xs: Seq<F>| #[trigger] read_raf_stage::records(inp, acc1, xs);
    lemma_same_records(inp, acc1, xs);
    assert forall|id: OpeningId| foreign(id) implies #[trigger] accumulator::kept(acc, acc1, id) by {
        lemma_seeded_keeps(acc, stages, seeds, 5, id);
        assert(read_raf_stage::foreign(id, SumcheckId::BytecodeReadRaf));
        assert(accumulator::kept(mid, acc1, id));
    }
}

/// The records do not depend on the read claims.
proof fn lemma_same_records<F: Field>(inp: InputsModel<F>, acc: Claims<F>, xs: Seq<F>)
    requires
        inp.family == RaFamily::Bytecode,
        inp.id == SumcheckId::BytecodeReadRaf,
        read_raf_stage::records(inp, acc, xs),
    ensures
        records(inp.widths, inp.log_t, acc, xs),
{
    let other = inputs(inp.widths, inp.log_t, Seq::<StageModel<F>>::empty());
    assert forall|i: int| 0 <= i < inp.widths.len() implies acc.contains_key(
        #[trigger] other.chunk_id(i),
    ) && acc[other.chunk_id(i)].0 == shout_read_raf::chunk_point(inp.widths, xs.reverse(), i) by {
        assert(other.chunk_id(i) == inp.chunk_id(i));
    }
}

/// Drawing the read claims sends nothing.
proof fn lemma_setup_tape<F: Field>(s: FsState<F>, log_t: nat, log_register: nat)
    ensures
        setup_state(s, log_t, log_register).tape == s.tape,
{
    let s1 = s.squeeze_n(5);
    let s2 = s1.squeeze_n(log_register);
    transcript::lemma_coins_len(s, 5);
    transcript::lemma_coins_len(s1, log_register);
    transcript::lemma_coins_len(s2, log_register);
    lemma_points_tape(after_registers(s, log_register), log_t, 5);
}

proof fn lemma_points_tape<F: Field>(s: FsState<F>, log_t: nat, i: int)
    ensures
        after_points(s, log_t, i).tape == s.tape,
    decreases i,
{
    if i > 0 {
        lemma_points_tape(s, log_t, i - 1);
        transcript::lemma_coins_len(after_points(s, log_t, i - 1), log_t);
    }
}

/// The name of the claim about a chunk of the bytecode address.
pub open spec fn chunk_id(i: int) -> OpeningId {
    accumulator::comm(RaFamily::Bytecode.member(i), SumcheckId::BytecodeReadRaf)
}

/// Where one proof is accepted, another whose seeds have another batch is refused by the sumcheck.
pub proof fn law_changed_seeds_refused<F: Field>(
    accepted: Seq<F>,
    seeds: Seq<F>,
    openings: Seq<F>,
    bytecode: Seq<Instruction>,
    widths: Seq<usize>,
    log_t: nat,
    log_register: nat,
    acc: Claims<F>,
    s: FsState<F>,
)
    requires
        verdict(accepted, openings, bytecode, widths, log_t, log_register, acc, s).0 is Ok,
        shout_read_raf::address_bits(widths) + log_t > 0,
        ({
            let g = setup_state(s, log_t, log_register).next();
            sums::sum(5, |i: int| sums::power(g, i).times(seeds[i])) != sums::sum(
                5,
                |i: int| sums::power(g, i).times(accepted[i]),
            )
        }),
    ensures
        verdict(seeds, openings, bytecode, widths, log_t, log_register, acc, s).0 == Err::<
            (),
            ReadRafStageError,
        >(ReadRafStageError::Sumcheck),
{
    let stages = setup(bytecode, widths, log_t, log_register, s);
    let inp = inputs(widths, log_t, stages);
    let s1 = setup_state(s, log_t, log_register);
    lemma_seeded_batch(acc, stages, accepted, inp, s1.next());
    lemma_seeded_batch(acc, stages, seeds, inp, s1.next());
    read_raf_stage::law_changed_reads_refused(
        openings,
        openings,
        inp,
        seeded(acc, stages, accepted, 5),
        seeded(acc, stages, seeds, 5),
        s1,
    );
}

/// Where one proof is accepted, another with the same seeds whose chunk openings have a different
/// product is refused by the read check, unless its weight cancels the difference.
pub proof fn law_changed_openings_refused<F: Field>(
    seeds: Seq<F>,
    accepted: Seq<F>,
    openings: Seq<F>,
    bytecode: Seq<Instruction>,
    widths: Seq<usize>,
    log_t: nat,
    log_register: nat,
    acc: Claims<F>,
    s: FsState<F>,
)
    requires
        widths.len() <= usize::MAX,
        verdict(seeds, accepted, bytecode, widths, log_t, log_register, acc, s).0 is Ok,
        ({
            let stages = setup(bytecode, widths, log_t, log_register, s);
            read_raf_stage::openings_weight(
                inputs(widths, log_t, stages),
                seeded(acc, stages, seeds, 5),
                setup_state(s, log_t, log_register),
            ).times(
                sums::product(widths.len() as int, |i: int| openings[i]).minus(
                    sums::product(widths.len() as int, |i: int| accepted[i]),
                ),
            ) != F::of_int(0)
        }),
    ensures
        verdict(seeds, openings, bytecode, widths, log_t, log_register, acc, s).0 == Err::<
            (),
            ReadRafStageError,
        >(ReadRafStageError::Claim),
{
    let stages = setup(bytecode, widths, log_t, log_register, s);
    read_raf_stage::law_changed_openings_refused(
        accepted,
        openings,
        inputs(widths, log_t, stages),
        seeded(acc, stages, seeds, 5),
        setup_state(s, log_t, log_register),
    );
}

/// The batched read claim is the batch of the seeds.
proof fn lemma_seeded_batch<F: Field>(
    acc: Claims<F>,
    stages: Seq<StageModel<F>>,
    seeds: Seq<F>,
    inp: InputsModel<F>,
    g: F,
)
    requires
        stages.len() == 5,
        forall|c: int| 0 <= c < 5 ==> (#[trigger] stages[c]).rv_key == rv_key(c),
        inp.stages == stages,
    ensures
        ({
            let m = inp.batched(g);
            shout_read_raf::input(m.gp, m.stages, seeded(acc, stages, seeds, 5)) == sums::sum(
                5,
                |i: int| sums::power(g, i).times(seeds[i]),
            )
        }),
{
    let m = inp.batched(g);
    let after = seeded(acc, stages, seeds, 5);
    let f = |i: int| m.gp[i].times(after[shout_read_raf::rv_id(m.stages[i])].1);
    let h = |i: int| sums::power(g, i).times(seeds[i]);
    assert forall|i: int| 0 <= i < 5 implies #[trigger] f(i) == h(i) by {
        lemma_seeded(acc, stages, seeds, 5, i);
    }
    sums::lemma_sum_ext(5, f, h);
}

/// The whole run between fresh parties with one label: the check of a bytecode is accepted, the
/// verifier reads all of it, and both parties record the same claims.
pub proof fn law_round_trip<F: Field>(
    bytecode: Seq<Instruction>,
    indices: Seq<Seq<u32>>,
    widths: Seq<usize>,
    log_t: nat,
    log_register: nat,
    label: Seq<u8>,
)
    requires
        sized(widths, log_t, log_register),
        read_raf_stage::indices_fit(indices, widths, log_t),
    ensures
        ({
            let none = Map::<OpeningId, (Seq<F>, F)>::empty();
            let p0 = transcript::fresh(label, Seq::empty());
            let (seeds, openings, recorded, p) = honest(
                bytecode,
                indices,
                widths,
                log_t,
                log_register,
                none,
                p0,
            );
            let (r, acc, v) = verdict(
                seeds,
                openings,
                bytecode,
                widths,
                log_t,
                log_register,
                none,
                transcript::fresh(label, p.tape),
            );
            &&& r is Ok
            &&& acc == recorded
            &&& v.tape.len() == 0
        }),
{
    let none = Map::<OpeningId, (Seq<F>, F)>::empty();
    let p0 = transcript::fresh::<F>(label, Seq::empty());
    let p = honest(bytecode, indices, widths, log_t, log_register, none, p0).3;
    let v = transcript::fresh(label, p.tape);
    transcript::law_fresh(label, p.tape);
    law_complete(bytecode, indices, widths, log_t, log_register, none, p0, v, p.tape);
}

} // verus!
