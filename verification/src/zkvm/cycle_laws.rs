//! What the variables of a cycle say of the rows of its trace, and the equations between them.

use crate::field;
use crate::field::Field;
use crate::r1cs::layout::{
    ADD_C0, BRANCH, CONST_ONE, F_ADD, F_DO_NOT_UPDATE_PC, F_JUMP, IMM, LEFT, LEFT_LOOKUP,
    LEFT_SIGN, LIMB, LOOKUP_OUTPUT, MUL_C0, MUL_C1, MUL_C2, NEXT_IS_FIRST_IN_SEQUENCE,
    NEXT_IS_NOOP, NEXT_IS_VIRTUAL, NEXT_PC, NEXT_UNEXPANDED_PC, NUM_VARS, PC, PRODUCT,
    PRODUCT_SIGN, Q, RAM_ADDRESS, RAM_ADDR_C0, RAM_READ, RAM_WRITE, RD_WRITE, RIGHT_MAG,
    RIGHT_SIGN, RLO, RS1, RS2, SHOULD_BRANCH, SHOULD_JUMP, SIGN_PROD, SUB_C0, SUB_C1,
    UNEXPANDED_PC,
};
use crate::zkvm::r1cs_witness;
use crate::zkvm::r1cs_witness::assignment;
use crate::zkvm::trace::{CircuitFlagSet, CycleRow};
use vstd::prelude::*;

verus! {

/// Two halves recompose to a word in the field.
proof fn lemma_halves<F: Field>(v: int)
    ensures
        F::of_int(v % 0x1_0000_0000).plus(
            F::of_int(0x1_0000_0000).times(F::of_int(v / 0x1_0000_0000)),
        ) == F::of_int(v),
{
    let (low, high) = (v % 0x1_0000_0000, v / 0x1_0000_0000);
    F::law_of_int_times(0x1_0000_0000, high);
    F::law_of_int_plus(low, 0x1_0000_0000 * high);
    vstd::arithmetic::div_mod::lemma_fundamental_div_mod(v, 0x1_0000_0000);
}

/// The word variables of an active cycle hold the low and the high half of the words that its row of
/// the trace names, and recompose to them: the registers read, the register value left, the memory
/// words found and left, and the lookup output. What the row does not name is zero.
pub proof fn law_word_variables<F: Field>(trace: Seq<CycleRow>, t: int, pcs: Seq<u64>)
    requires
        0 <= t < trace.len(),
        !trace[t].is_noop,
    ensures
        ({
            let z = assignment::<F>(trace, t, pcs);
            let row = trace[t];
            let holds = |i: int, v: int|
                z[i] == F::of_int(v % 0x1_0000_0000) && z[i + 1] == F::of_int(v / 0x1_0000_0000)
                    && z[i].plus(F::of_int(0x1_0000_0000).times(z[i + 1])) == F::of_int(v);
            &&& match row.rs1_read {
                Some((_, v)) => holds(RS1 as int, v as int),
                None => holds(RS1 as int, 0),
            }
            &&& match row.rs2_read {
                Some((_, v)) => holds(RS2 as int, v as int),
                None => holds(RS2 as int, 0),
            }
            &&& match row.rd_write {
                Some((_, _, v)) => holds(RD_WRITE as int, v as int),
                None => holds(RD_WRITE as int, 0),
            }
            &&& match row.ram_read_value {
                Some(v) => holds(RAM_READ as int, v as int),
                None => holds(RAM_READ as int, 0),
            }
            &&& match row.ram_write_value {
                Some(v) => holds(RAM_WRITE as int, v as int),
                None => holds(RAM_WRITE as int, 0),
            }
            &&& holds(LOOKUP_OUTPUT as int, row.lookup_output as int)
        }),
{
    reveal(r1cs_witness::state_cell);
    reveal(r1cs_witness::operand_cell);
    let row = trace[t];
    let rs1 = r1cs_witness::read_value(row.rs1_read);
    let rs2 = r1cs_witness::read_value(row.rs2_read);
    let left = match row.rd_write {
        Some((_, _, v)) => v as int,
        None => 0,
    };
    let found = r1cs_witness::value_or_zero(row.ram_read_value);
    let written = r1cs_witness::value_or_zero(row.ram_write_value);
    r1cs_witness::lemma_word_limbs(rs1);
    r1cs_witness::lemma_word_limbs(rs2);
    r1cs_witness::lemma_word_limbs(left);
    r1cs_witness::lemma_word_limbs(found);
    r1cs_witness::lemma_word_limbs(written);
    r1cs_witness::lemma_word_limbs(row.lookup_output as int);
    lemma_halves::<F>(rs1);
    lemma_halves::<F>(rs2);
    lemma_halves::<F>(left);
    lemma_halves::<F>(found);
    lemma_halves::<F>(written);
    lemma_halves::<F>(row.lookup_output as int);
}

/// Where the value left in the destination register is the lookup output, the two words agree
/// half by half. So do the value left and the word found, where a load leaves that word, the words
/// found and left, where a load changes nothing, and the word left and the second source register,
/// where a store writes that register. Each holds as the constraint that its flag switches on.
pub proof fn law_transfer_constraints<F: Field>(trace: Seq<CycleRow>, t: int, pcs: Seq<u64>, h: int)
    requires
        0 <= t < trace.len(),
        !trace[t].is_noop,
        0 <= h < 2,
    ensures
        ({
            let z = assignment::<F>(trace, t, pcs);
            let row = trace[t];
            let flags = row.circuit_flags;
            let zero = F::of_int(0);
            let rd = match row.rd_write {
                Some((_, _, v)) => Some(v),
                None => None,
            };
            &&& rd == Some(row.lookup_output) ==> z[RD_WRITE + h] == z[LOOKUP_OUTPUT + h]
            &&& rd is Some && rd == row.ram_read_value ==> z[RD_WRITE + h] == z[RAM_READ + h]
            &&& row.ram_read_value == row.ram_write_value ==> z[RAM_READ + h] == z[RAM_WRITE + h]
            &&& row.rs2_read is Some && row.ram_write_value is Some && (row.rs2_read->0).1
                == row.ram_write_value->0 ==> z[RAM_WRITE + h] == z[RS2 + h]
            &&& (flags.write_lookup_output_to_rd ==> rd == Some(row.lookup_output))
                ==> z[F_ADD + 6].times(z[RD_WRITE + h].minus(z[LOOKUP_OUTPUT + h])) == zero
            &&& (flags.load ==> rd is Some && rd == row.ram_read_value) ==> z[F_ADD + 3].times(
                z[RD_WRITE + h].minus(z[RAM_READ + h]),
            ) == zero
            &&& (flags.load ==> row.ram_read_value == row.ram_write_value) ==> z[F_ADD + 3].times(
                z[RAM_READ + h].minus(z[RAM_WRITE + h]),
            ) == zero
            &&& (flags.store ==> row.rs2_read is Some && row.ram_write_value is Some && (
            row.rs2_read->0).1 == row.ram_write_value->0) ==> z[F_ADD + 4].times(
                z[RAM_WRITE + h].minus(z[RS2 + h]),
            ) == zero
            &&& (flags.assert_flag ==> row.lookup_output == 1) ==> z[F_ADD + 8].times(
                z[LOOKUP_OUTPUT + h].minus(F::of_int(1 - h)),
            ) == zero
        }),
{
    let z = assignment::<F>(trace, t, pcs);
    law_word_variables::<F>(trace, t, pcs);
    law_flag_variables::<F>(trace, t, pcs);
    let row = trace[t];
    assert(h == 0 || h == 1);
    field::lemma_minus_self(z[RD_WRITE + h]);
    field::lemma_minus_self(z[RAM_READ + h]);
    field::lemma_minus_self(z[RAM_WRITE + h]);
    field::lemma_minus_self(F::of_int(1 - h));
    F::law_times_zero(z[F_ADD + 6]);
    F::law_times_zero(z[F_ADD + 3]);
    F::law_times_zero(z[F_ADD + 4]);
    F::law_times_zero(z[F_ADD + 8]);
    field::lemma_zero_times(z[RD_WRITE + h].minus(z[LOOKUP_OUTPUT + h]));
    field::lemma_zero_times(z[RD_WRITE + h].minus(z[RAM_READ + h]));
    field::lemma_zero_times(z[RAM_READ + h].minus(z[RAM_WRITE + h]));
    field::lemma_zero_times(z[RAM_WRITE + h].minus(z[RS2 + h]));
    field::lemma_zero_times(z[LOOKUP_OUTPUT + h].minus(F::of_int(1 - h)));
}

/// The flags by position.
spec fn flag_at(flags: CircuitFlagSet, k: int) -> bool {
    if k == 0 {
        flags.add_operands
    } else if k == 1 {
        flags.subtract_operands
    } else if k == 2 {
        flags.multiply_operands
    } else if k == 3 {
        flags.load
    } else if k == 4 {
        flags.store
    } else if k == 5 {
        flags.jump
    } else if k == 6 {
        flags.write_lookup_output_to_rd
    } else if k == 7 {
        flags.virtual_instruction
    } else if k == 8 {
        flags.assert_flag
    } else if k == 9 {
        flags.do_not_update_unexpanded_pc
    } else if k == 10 {
        flags.advice
    } else if k == 11 {
        flags.is_compressed
    } else if k == 12 {
        flags.is_first_in_sequence
    } else {
        flags.is_last_in_sequence
    }
}

/// A circuit flag variable holds the flag at its position.
proof fn lemma_flag<F: Field>(trace: Seq<CycleRow>, t: int, pcs: Seq<u64>, k: int)
    requires
        0 <= t < trace.len(),
        !trace[t].is_noop,
        0 <= k < 14,
    ensures
        assignment::<F>(trace, t, pcs)[F_ADD + k] == F::of_int(
            if flag_at(trace[t].circuit_flags, k) {
                1
            } else {
                0
            },
        ),
{
    reveal(r1cs_witness::flag_cell);
    assert(trace[t].circuit_flags.bits()[k] == flag_at(trace[t].circuit_flags, k));
}

/// The branch variables hold the branch flag, and the lookup output where it is set.
proof fn lemma_branch<F: Field>(trace: Seq<CycleRow>, t: int, pcs: Seq<u64>)
    requires
        0 <= t < trace.len(),
        !trace[t].is_noop,
    ensures
        ({
            let z = assignment::<F>(trace, t, pcs);
            let b: int = if trace[t].instruction_flags.branch {
                1
            } else {
                0
            };
            &&& z[BRANCH as int] == F::of_int(b)
            &&& z[SHOULD_BRANCH as int] == F::of_int(trace[t].lookup_output * b)
        }),
{
    reveal(r1cs_witness::flag_cell);
}

/// The flag variables of an active cycle are the flags of its row, one for each.
pub proof fn law_flag_variables<F: Field>(trace: Seq<CycleRow>, t: int, pcs: Seq<u64>)
    requires
        0 <= t < trace.len(),
        !trace[t].is_noop,
    ensures
        ({
            let z = assignment::<F>(trace, t, pcs);
            let flags = trace[t].circuit_flags;
            let bit = |b: bool|
                if b {
                    F::of_int(1)
                } else {
                    F::of_int(0)
                };
            &&& z[CONST_ONE as int] == F::of_int(1)
            &&& z[F_ADD as int] == bit(flags.add_operands)
            &&& z[F_ADD + 1] == bit(flags.subtract_operands)
            &&& z[F_ADD + 2] == bit(flags.multiply_operands)
            &&& z[F_ADD + 3] == bit(flags.load)
            &&& z[F_ADD + 4] == bit(flags.store)
            &&& z[F_JUMP as int] == bit(flags.jump)
            &&& z[F_ADD + 6] == bit(flags.write_lookup_output_to_rd)
            &&& z[F_ADD + 7] == bit(flags.virtual_instruction)
            &&& z[F_ADD + 8] == bit(flags.assert_flag)
            &&& z[F_DO_NOT_UPDATE_PC as int] == bit(flags.do_not_update_unexpanded_pc)
            &&& z[F_ADD + 10] == bit(flags.advice)
            &&& z[F_ADD + 11] == bit(flags.is_compressed)
            &&& z[F_ADD + 12] == bit(flags.is_first_in_sequence)
            &&& z[F_ADD + 13] == bit(flags.is_last_in_sequence)
            &&& z[BRANCH as int] == bit(trace[t].instruction_flags.branch)
        }),
{
    lemma_flag::<F>(trace, t, pcs, 0);
    lemma_flag::<F>(trace, t, pcs, 1);
    lemma_flag::<F>(trace, t, pcs, 2);
    lemma_flag::<F>(trace, t, pcs, 3);
    lemma_flag::<F>(trace, t, pcs, 4);
    lemma_flag::<F>(trace, t, pcs, 5);
    lemma_flag::<F>(trace, t, pcs, 6);
    lemma_flag::<F>(trace, t, pcs, 7);
    lemma_flag::<F>(trace, t, pcs, 8);
    lemma_flag::<F>(trace, t, pcs, 9);
    lemma_flag::<F>(trace, t, pcs, 10);
    lemma_flag::<F>(trace, t, pcs, 11);
    lemma_flag::<F>(trace, t, pcs, 12);
    lemma_flag::<F>(trace, t, pcs, 13);
    lemma_branch::<F>(trace, t, pcs);
}

/// The branch decision of an active cycle is its lookup output times its branch flag, and the jump
/// decision is its jump flag where the next cycle does something.
pub proof fn law_decision_variables<F: Field>(trace: Seq<CycleRow>, t: int, pcs: Seq<u64>)
    requires
        0 <= t < trace.len(),
        !trace[t].is_noop,
    ensures
        ({
            let z = assignment::<F>(trace, t, pcs);
            let row = trace[t];
            let jumps = row.circuit_flags.jump && t + 1 < trace.len() && !trace[t + 1].is_noop;
            &&& z[SHOULD_BRANCH as int] == z[LOOKUP_OUTPUT as int].plus(
                F::of_int(0x1_0000_0000).times(z[LOOKUP_OUTPUT + 1]),
            ).times(z[BRANCH as int])
            &&& row.instruction_flags.branch ==> z[SHOULD_BRANCH as int] == F::of_int(
                row.lookup_output as int,
            )
            &&& !row.instruction_flags.branch ==> z[SHOULD_BRANCH as int] == F::of_int(0)
            &&& z[SHOULD_JUMP as int] == z[F_JUMP as int].times(
                F::of_int(1).minus(z[NEXT_IS_NOOP as int]),
            )
            &&& z[SHOULD_JUMP as int] == (if jumps {
                F::of_int(1)
            } else {
                F::of_int(0)
            })
        }),
{
    let row = trace[t];
    lemma_branch::<F>(trace, t, pcs);
    lemma_flag::<F>(trace, t, pcs, 5);
    law_word_variables::<F>(trace, t, pcs);
    F::law_of_int_times(row.lookup_output as int, r1cs_witness::num(row.instruction_flags.branch));
    let j = r1cs_witness::num(row.circuit_flags.jump);
    let n = r1cs_witness::num(r1cs_witness::next_is_noop(trace, t));
    F::law_minus(F::of_int(1), F::of_int(n));
    F::law_of_int_times(n, -1);
    assert(n * -1 == -n);
    F::law_of_int_plus(1, -n);
    F::law_of_int_times(j, 1 - n);
    assert(j * 0 == 0 && j * 1 == j);
}

/// The counter variables of an active cycle hold the bytecode index given for it and the program
/// counter of its row, and the immediate variables recompose to the signed immediate, with a low
/// half between zero and `2^32`.
pub proof fn law_counter_variables<F: Field>(trace: Seq<CycleRow>, t: int, pcs: Seq<u64>)
    requires
        0 <= t < trace.len(),
        !trace[t].is_noop,
    ensures
        ({
            let z = assignment::<F>(trace, t, pcs);
            let imm = trace[t].imm as int;
            &&& t < pcs.len() ==> z[PC as int] == F::of_int(pcs[t] as int)
            &&& z[UNEXPANDED_PC as int] == F::of_int(trace[t].unexpanded_pc as int)
            &&& z[IMM as int] == F::of_int(imm % 0x1_0000_0000)
            &&& z[IMM + 1] == F::of_int(imm / 0x1_0000_0000)
            &&& z[IMM as int].plus(F::of_int(0x1_0000_0000).times(z[IMM + 1])) == F::of_int(imm)
        }),
{
    reveal(r1cs_witness::state_cell);
    lemma_halves::<F>(trace[t].imm as int);
}

/// The variables about the next cycle are what that cycle's own row and variables say. After the last
/// cycle they are zero, and the next cycle counts as one that does nothing.
pub proof fn law_next_variables<F: Field>(trace: Seq<CycleRow>, t: int, pcs: Seq<u64>)
    requires
        0 <= t < trace.len(),
    ensures
        ({
            let z = assignment::<F>(trace, t, pcs);
            let y = assignment::<F>(trace, t + 1, pcs);
            let zero = F::of_int(0);
            let one = F::of_int(1);
            &&& t + 1 < trace.len() ==> {
                let next = trace[t + 1];
                &&& z[NEXT_IS_NOOP as int] == (if next.is_noop {
                    one
                } else {
                    zero
                })
                &&& t + 1 < pcs.len() ==> z[NEXT_PC as int] == F::of_int(pcs[t + 1] as int)
                &&& z[NEXT_UNEXPANDED_PC as int] == F::of_int(next.unexpanded_pc as int)
                &&& z[NEXT_IS_VIRTUAL as int] == (if next.circuit_flags.virtual_instruction {
                    one
                } else {
                    zero
                })
                &&& z[NEXT_IS_FIRST_IN_SEQUENCE as int] == (
                if next.circuit_flags.is_first_in_sequence {
                    one
                } else {
                    zero
                })
                &&& !next.is_noop ==> {
                    &&& z[NEXT_PC as int] == y[PC as int]
                    &&& z[NEXT_UNEXPANDED_PC as int] == y[UNEXPANDED_PC as int]
                    &&& z[NEXT_IS_VIRTUAL as int] == y[F_ADD + 7]
                    &&& z[NEXT_IS_FIRST_IN_SEQUENCE as int] == y[F_ADD + 12]
                }
            }
            &&& t + 1 == trace.len() ==> {
                &&& z[NEXT_IS_NOOP as int] == one
                &&& z[NEXT_PC as int] == zero
                &&& z[NEXT_UNEXPANDED_PC as int] == zero
                &&& z[NEXT_IS_VIRTUAL as int] == zero
                &&& z[NEXT_IS_FIRST_IN_SEQUENCE as int] == zero
            }
        }),
{
    reveal(r1cs_witness::next_cell);
    reveal(r1cs_witness::state_cell);
    reveal(r1cs_witness::flag_cell);
}

/// A cycle that does nothing keeps the program counter. Its other variables, but for the constant and
/// those about the next cycle, are zero.
pub proof fn law_noop_variables<F: Field>(trace: Seq<CycleRow>, t: int, pcs: Seq<u64>, i: int)
    requires
        0 <= t < trace.len(),
        trace[t].is_noop,
        0 <= i < NUM_VARS,
    ensures
        ({
            let z = assignment::<F>(trace, t, pcs);
            &&& z[CONST_ONE as int] == F::of_int(1)
            &&& z[F_DO_NOT_UPDATE_PC as int] == F::of_int(1)
            &&& i != CONST_ONE && i != F_DO_NOT_UPDATE_PC && i != NEXT_IS_NOOP && i != NEXT_PC && i
                != NEXT_UNEXPANDED_PC && i != NEXT_IS_VIRTUAL && i != NEXT_IS_FIRST_IN_SEQUENCE
                ==> z[i] == F::of_int(0)
        }),
{
}

/// The left input of an active cycle is the program counter or the first source register of its row,
/// as the flags select, and is unsigned. The right input is the immediate or the second source
/// register, as the flags select: the variables recompose to it with its sign.
pub proof fn law_input_variables<F: Field>(trace: Seq<CycleRow>, t: int, pcs: Seq<u64>)
    requires
        0 <= t < trace.len(),
        !trace[t].is_noop,
        r1cs_witness::row_fits(trace[t]),
    ensures
        ({
            let z = assignment::<F>(trace, t, pcs);
            let row = trace[t];
            let flags = row.instruction_flags;
            let left: int = if flags.left_operand_is_pc {
                row.unexpanded_pc as int
            } else if flags.left_operand_is_rs1_value && row.rs1_read is Some {
                (row.rs1_read->0).1 as int
            } else {
                0
            };
            let right: int = if flags.right_operand_is_imm {
                row.imm as int
            } else if flags.right_operand_is_rs2_value && row.rs2_read is Some {
                (row.rs2_read->0).1 as int
            } else {
                0
            };
            let size: int = if right < 0 {
                -right
            } else {
                right
            };
            let word = |i: int| z[i].plus(F::of_int(0x1_0000_0000).times(z[i + 1]));
            &&& z[LEFT as int] == F::of_int(left % 0x1_0000_0000)
            &&& z[LEFT + 1] == F::of_int(left / 0x1_0000_0000)
            &&& word(LEFT as int) == F::of_int(left)
            &&& z[LEFT_SIGN as int] == F::of_int(0)
            &&& z[RIGHT_MAG as int] == F::of_int(size % 0x1_0000_0000)
            &&& z[RIGHT_MAG + 1] == F::of_int(size / 0x1_0000_0000)
            &&& right >= 0 ==> word(RIGHT_MAG as int) == F::of_int(right) && z[RIGHT_SIGN as int]
                == F::of_int(0)
            &&& right < 0 ==> word(RIGHT_MAG as int) == F::of_int(-right) && z[RIGHT_SIGN as int]
                == F::of_int(1)
        }),
{
    reveal(r1cs_witness::product_cell);
    let row = trace[t];
    let left = r1cs_witness::left_input(row);
    let size = r1cs_witness::magnitude(r1cs_witness::right_input(row));
    r1cs_witness::lemma_word_limbs(left);
    r1cs_witness::lemma_word_limbs(size);
    lemma_halves::<F>(left);
    lemma_halves::<F>(size);
}

/// The product variables of every cycle satisfy the schoolbook equations: each limb product is the
/// product of its limbs, the limb products and the carries recompose to the limbs of the product,
/// and the sign of the product is that of its factors.
pub proof fn law_product_constraints<F: Field>(trace: Seq<CycleRow>, t: int, pcs: Seq<u64>)
    requires
        0 <= t < trace.len(),
        r1cs_witness::row_fits(trace[t]),
    ensures
        ({
            let z = assignment::<F>(trace, t, pcs);
            let shift = F::of_int(0x1_0000_0000);
            &&& z[Q as int] == z[LEFT as int].times(z[RIGHT_MAG as int])
            &&& z[Q + 1] == z[LEFT as int].times(z[RIGHT_MAG + 1])
            &&& z[Q + 2] == z[LEFT + 1].times(z[RIGHT_MAG as int])
            &&& z[Q + 3] == z[LEFT + 1].times(z[RIGHT_MAG + 1])
            &&& z[Q as int] == z[PRODUCT as int].plus(shift.times(z[MUL_C0 as int]))
            &&& z[Q + 1].plus(z[Q + 2]).plus(z[MUL_C0 as int]) == z[PRODUCT + 1].plus(
                shift.times(z[MUL_C1 as int]),
            )
            &&& z[Q + 3].plus(z[MUL_C1 as int]) == z[PRODUCT + 2].plus(
                shift.times(z[MUL_C2 as int]),
            )
            &&& z[MUL_C2 as int] == z[PRODUCT + 3]
            &&& z[SIGN_PROD as int] == z[LEFT_SIGN as int].times(z[RIGHT_SIGN as int])
            &&& z[PRODUCT_SIGN as int] == z[LEFT_SIGN as int].plus(z[RIGHT_SIGN as int])
        }),
{
    reveal(r1cs_witness::product_cell);
    let row = trace[t];
    let l = LIMB as int;
    let signed = r1cs_witness::right_input(row);
    let (left, right) = if row.is_noop {
        (0, 0)
    } else {
        (r1cs_witness::left_input(row), r1cs_witness::magnitude(signed))
    };
    let sign = r1cs_witness::num(!row.is_noop && signed < 0);
    r1cs_witness::law_product_limbs(left, right);
    r1cs_witness::lemma_word_limbs(left);
    r1cs_witness::lemma_word_limbs(right);
    if row.is_noop {
        assert forall|k: int| 0 <= k < 4 implies r1cs_witness::limb_product(0, 0, k) == 0 by {
            assert(r1cs_witness::limb(0, k / 2) == 0);
        }
        assert(r1cs_witness::limb_product(0, 0, 0) == 0);
        assert(r1cs_witness::limb_product(0, 0, 1) == 0);
        assert(r1cs_witness::limb_product(0, 0, 2) == 0);
        assert(r1cs_witness::limb_product(0, 0, 3) == 0);
    }
    let (a0, a1) = (r1cs_witness::limb(left, 0), r1cs_witness::limb(left, 1));
    let (b0, b1) = (r1cs_witness::limb(right, 0), r1cs_witness::limb(right, 1));
    F::law_of_int_times(a0, b0);
    F::law_of_int_times(a0, b1);
    F::law_of_int_times(a1, b0);
    F::law_of_int_times(a1, b1);
    let c0 = r1cs_witness::carry_0(left, right);
    let c1 = r1cs_witness::carry_1(left, right);
    let c2 = r1cs_witness::carry_2(left, right);
    F::law_of_int_times(l, c0);
    F::law_of_int_times(l, c1);
    F::law_of_int_times(l, c2);
    let p = left * right;
    F::law_of_int_plus(r1cs_witness::limb(p, 0), l * c0);
    F::law_of_int_plus(a0 * b1, a1 * b0);
    F::law_of_int_plus(a0 * b1 + a1 * b0, c0);
    F::law_of_int_plus(r1cs_witness::limb(p, 1), l * c1);
    F::law_of_int_plus(a1 * b1, c1);
    F::law_of_int_plus(r1cs_witness::limb(p, 2), l * c2);
    F::law_of_int_times(0, sign);
    F::law_of_int_plus(0, sign);
}

/// The right lookup operand of an active cycle is, as its flags select, the sum of the two inputs as
/// words, the left input with `2^64` less the right input as a word, the product of the left input
/// and the size of the right, the lookup output where it is advice, or the right input. The left
/// lookup operand is the left input where the operands are not combined, and zero where they are.
pub proof fn law_operand_variables<F: Field>(trace: Seq<CycleRow>, t: int, pcs: Seq<u64>)
    requires
        0 <= t < trace.len(),
        !trace[t].is_noop,
    ensures
        ({
            let z = assignment::<F>(trace, t, pcs);
            let row = trace[t];
            let flags = row.circuit_flags;
            let left: int = if row.instruction_flags.left_operand_is_pc {
                row.unexpanded_pc as int
            } else if row.instruction_flags.left_operand_is_rs1_value && row.rs1_read is Some {
                (row.rs1_read->0).1 as int
            } else {
                0
            };
            let right: int = if row.instruction_flags.right_operand_is_imm {
                row.imm as int
            } else if row.instruction_flags.right_operand_is_rs2_value && row.rs2_read is Some {
                (row.rs2_read->0).1 as int
            } else {
                0
            };
            let operand: int = if flags.add_operands {
                left + right % 0x1_0000_0000_0000_0000
            } else if flags.subtract_operands {
                left + 0x1_0000_0000_0000_0000 - right % 0x1_0000_0000_0000_0000
            } else if flags.multiply_operands {
                if right < 0 {
                    left * -right
                } else {
                    left * right
                }
            } else if flags.advice {
                row.lookup_output as int
            } else {
                right
            };
            let combined = flags.add_operands || flags.subtract_operands || flags.multiply_operands
                || flags.advice;
            &&& z[RLO as int] == F::of_int(operand % 0x1_0000_0000)
            &&& z[RLO + 1] == F::of_int((operand / 0x1_0000_0000) % 0x1_0000_0000)
            &&& z[RLO + 2] == F::of_int((operand / 0x1_0000_0000_0000_0000) % 0x1_0000_0000)
            &&& z[RLO + 3] == F::of_int(
                (operand / 0x1_0000_0000_0000_0000_0000_0000) % 0x1_0000_0000_0000_0000,
            )
            &&& combined ==> z[LEFT_LOOKUP as int] == F::of_int(0) && z[LEFT_LOOKUP + 1]
                == F::of_int(0)
            &&& !combined ==> z[LEFT_LOOKUP as int] == F::of_int(left % 0x1_0000_0000)
                && z[LEFT_LOOKUP + 1] == F::of_int(left / 0x1_0000_0000)
        }),
{
    reveal(r1cs_witness::operand_cell);
    r1cs_witness::lemma_word_limbs(r1cs_witness::left_input(trace[t]));
}

/// The equations between the operands of an active cycle. A sum is the left input plus the right one
/// limb by limb, a difference gives the left input with `2^64` when the right one is added back limb
/// by limb, and a product is that of the product variables. The carries of the other operations are
/// zero.
pub proof fn law_operand_constraints<F: Field>(
    trace: Seq<CycleRow>,
    t: int,
    pcs: Seq<u64>,
    low: int,
    high: int,
)
    requires
        0 <= t < trace.len(),
        !trace[t].is_noop,
        r1cs_witness::row_fits(trace[t]),
        0 <= low < 0x1_0000_0000,
        0 <= high < 0x1_0000_0000,
        low + 0x1_0000_0000 * high == (if trace[t].instruction_flags.right_operand_is_imm {
            trace[t].imm as int
        } else if trace[t].instruction_flags.right_operand_is_rs2_value && trace[t].rs2_read is Some {
            (trace[t].rs2_read->0).1 as int
        } else {
            0
        }) % 0x1_0000_0000_0000_0000,
    ensures
        ({
            let z = assignment::<F>(trace, t, pcs);
            let flags = trace[t].circuit_flags;
            let shift = F::of_int(0x1_0000_0000);
            let zero = F::of_int(0);
            &&& flags.add_operands ==> {
                &&& z[LEFT as int].plus(F::of_int(low)) == z[RLO as int].plus(
                    shift.times(z[ADD_C0 as int]),
                )
                &&& z[LEFT + 1].plus(F::of_int(high)).plus(z[ADD_C0 as int]) == z[RLO + 1].plus(
                    shift.times(z[RLO + 2]),
                )
                &&& z[RLO + 3] == zero
            }
            &&& !flags.add_operands ==> z[ADD_C0 as int] == zero
            &&& !flags.add_operands && flags.subtract_operands ==> {
                &&& z[RLO as int].plus(F::of_int(low)) == z[LEFT as int].plus(
                    shift.times(z[SUB_C0 as int]),
                )
                &&& z[RLO + 1].plus(F::of_int(high)).plus(z[SUB_C0 as int]) == z[LEFT + 1].plus(
                    shift.times(z[SUB_C1 as int]),
                )
                &&& z[RLO + 2].plus(z[SUB_C1 as int]) == F::of_int(1)
                &&& z[RLO + 3] == zero
            }
            &&& flags.add_operands || !flags.subtract_operands ==> z[SUB_C0 as int] == zero
                && z[SUB_C1 as int] == zero
            &&& !flags.add_operands && !flags.subtract_operands && flags.multiply_operands ==> {
                &&& z[RLO as int] == z[PRODUCT as int]
                &&& z[RLO + 1] == z[PRODUCT + 1]
                &&& z[RLO + 2] == z[PRODUCT + 2]
                &&& z[RLO + 3] == z[PRODUCT + 3]
            }
        }),
{
    reveal(r1cs_witness::operand_cell);
    reveal(r1cs_witness::product_cell);
    let row = trace[t];
    let flags = row.circuit_flags;
    let l = LIMB as int;
    let left = r1cs_witness::left_input(row);
    let right = r1cs_witness::right_input(row) % r1cs_witness::word();
    r1cs_witness::lemma_limbs(right, low, high, 0, 0);
    if flags.add_operands {
        let s = left + right;
        let c = r1cs_witness::add_carry(left, right);
        r1cs_witness::law_sum_limbs(left, right);
        F::law_of_int_times(l, c);
        F::law_of_int_times(l, r1cs_witness::limb(s, 2));
        F::law_of_int_plus(r1cs_witness::limb(left, 0), low);
        F::law_of_int_plus(r1cs_witness::limb(s, 0), l * c);
        F::law_of_int_plus(r1cs_witness::limb(left, 1), high);
        F::law_of_int_plus(r1cs_witness::limb(left, 1) + high, c);
        F::law_of_int_plus(r1cs_witness::limb(s, 1), l * r1cs_witness::limb(s, 2));
    } else if flags.subtract_operands {
        let d = left + r1cs_witness::word() - right;
        let c0 = r1cs_witness::sub_carry_0(left, right);
        let c1 = r1cs_witness::sub_carry_1(left, right);
        r1cs_witness::law_difference_limbs(left, right);
        F::law_of_int_times(l, c0);
        F::law_of_int_times(l, c1);
        F::law_of_int_plus(r1cs_witness::limb(d, 0), low);
        F::law_of_int_plus(r1cs_witness::limb(left, 0), l * c0);
        F::law_of_int_plus(r1cs_witness::limb(d, 1), high);
        F::law_of_int_plus(r1cs_witness::limb(d, 1) + high, c0);
        F::law_of_int_plus(r1cs_witness::limb(left, 1), l * c1);
        F::law_of_int_plus(r1cs_witness::limb(d, 2), c1);
    }
}

/// The address variables of an active cycle hold, for a load or a store, the first source register
/// plus the immediate as a word, and otherwise the address that the row names, or zero. The low limb
/// of the sum satisfies its equation with a carry, which is zero where there is no sum.
pub proof fn law_address_variables<F: Field>(trace: Seq<CycleRow>, t: int, pcs: Seq<u64>)
    requires
        0 <= t < trace.len(),
        !trace[t].is_noop,
    ensures
        ({
            let z = assignment::<F>(trace, t, pcs);
            let row = trace[t];
            let shift = F::of_int(0x1_0000_0000);
            let summed = row.circuit_flags.load || row.circuit_flags.store;
            let base: int = match row.rs1_read {
                Some((_, v)) => v as int,
                None => 0,
            };
            let address: int = if summed {
                (base + row.imm) % 0x1_0000_0000_0000_0000
            } else {
                match row.ram_access_address {
                    Some(a) => a as int,
                    None => 0,
                }
            };
            &&& z[RAM_ADDRESS as int] == F::of_int(address % 0x1_0000_0000)
            &&& z[RAM_ADDRESS + 1] == F::of_int(address / 0x1_0000_0000)
            &&& z[RAM_ADDRESS as int].plus(shift.times(z[RAM_ADDRESS + 1])) == F::of_int(address)
            &&& summed ==> z[RS1 as int].plus(z[IMM as int]) == z[RAM_ADDRESS as int].plus(
                shift.times(z[RAM_ADDR_C0 as int]),
            )
            &&& !summed ==> z[RAM_ADDR_C0 as int] == F::of_int(0)
        }),
{
    reveal(r1cs_witness::state_cell);
    let row = trace[t];
    let l = LIMB as int;
    let base = r1cs_witness::read_value(row.rs1_read);
    let address = r1cs_witness::accessed_address(row);
    r1cs_witness::lemma_word_limbs(address);
    lemma_halves::<F>(address);
    if row.circuit_flags.load || row.circuit_flags.store {
        let low = (row.imm as int) % l;
        let carry = (r1cs_witness::limb(base, 0) + low) / l;
        r1cs_witness::law_address_limb(row);
        F::law_of_int_plus(r1cs_witness::limb(base, 0), low);
        F::law_of_int_times(l, carry);
        F::law_of_int_plus(r1cs_witness::limb(address, 0), l * carry);
    }
}

} // verus!
