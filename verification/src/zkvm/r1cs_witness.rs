//! The assignment of the constraint variables of every cycle, and its materialised columns.

use crate::field;
use crate::field::Field;
use crate::framework::bits;
use crate::framework::poly;
use crate::framework::sums;
use crate::r1cs::key;
use crate::r1cs::key::R1csKey;
use crate::r1cs::layout::{
    ADD_C0, BRANCH, CONST_ONE, F_ADD, F_DO_NOT_UPDATE_PC, F_JUMP, IMM, LEFT, LEFT_LOOKUP, LEFT_SIGN,
    LIMB, LOOKUP_OUTPUT, MUL_C0, MUL_C1, MUL_C2, NEXT_IS_FIRST_IN_SEQUENCE, NEXT_IS_NOOP,
    NEXT_IS_VIRTUAL, NEXT_PC, NEXT_UNEXPANDED_PC, NUM_VARS, PC, PRODUCT, PRODUCT_SIGN, Q,
    RAM_ADDRESS, RAM_ADDR_C0, RAM_READ, RAM_WRITE, RD_WRITE, RIGHT_MAG, RIGHT_SIGN, RLO, RS1, RS2,
    SHOULD_BRANCH, SHOULD_JUMP, SIGN_PROD, SUB_C0, SUB_C1, UNEXPANDED_PC,
};
use crate::r1cs::matrices;
use crate::r1cs::matrices::{ConstraintMatrices, Row};
use crate::zkvm::trace::{CycleRow, NUM_CIRCUIT_FLAGS};
use vstd::arithmetic::power2::pow2;
use vstd::prelude::*;

verus! {

/// `2^64`.
pub open spec fn word() -> int {
    0x1_0000_0000_0000_0000
}

/// `2^96`.
pub open spec fn three_limbs() -> int {
    0x1_0000_0000_0000_0000_0000_0000
}

/// A limb of a number.
pub open spec fn limb(x: int, i: int) -> int {
    if i == 0 {
        x % (LIMB as int)
    } else if i == 1 {
        (x / (LIMB as int)) % (LIMB as int)
    } else if i == 2 {
        (x / word()) % (LIMB as int)
    } else {
        (x / three_limbs()) % word()
    }
}

/// A truth value as a number.
pub open spec fn num(b: bool) -> int {
    if b {
        1
    } else {
        0
    }
}

/// The `k`-th product of a limb of the left word and a limb of the right word.
pub open spec fn limb_product(left: int, right: int, k: int) -> int {
    limb(left, k / 2) * limb(right, k % 2)
}

/// The carry out of the first product limb.
pub open spec fn carry_0(left: int, right: int) -> int {
    limb_product(left, right, 0) / (LIMB as int)
}

/// The carry out of the second product limb.
pub open spec fn carry_1(left: int, right: int) -> int {
    (limb_product(left, right, 1) + limb_product(left, right, 2) + carry_0(left, right)) / (
    LIMB as int)
}

/// The carry out of the third product limb.
pub open spec fn carry_2(left: int, right: int) -> int {
    (limb_product(left, right, 3) + carry_1(left, right)) / (LIMB as int)
}

/// A product variable.
#[verifier::opaque]
pub open spec fn product_cell(i: int, left: int, right_mag: int, right_sign: bool) -> int {
    if i < LEFT_SIGN {
        limb(left, i - LEFT)
    } else if i == LEFT_SIGN {
        0
    } else if i < RIGHT_SIGN {
        limb(right_mag, i - RIGHT_MAG)
    } else if i == RIGHT_SIGN {
        num(right_sign)
    } else if i < PRODUCT_SIGN {
        limb(left * right_mag, i - PRODUCT)
    } else if i == PRODUCT_SIGN {
        num(right_sign)
    } else if i < MUL_C0 {
        limb_product(left, right_mag, i - Q)
    } else if i == MUL_C0 {
        carry_0(left, right_mag)
    } else if i == MUL_C1 {
        carry_1(left, right_mag)
    } else if i == MUL_C2 {
        carry_2(left, right_mag)
    } else {
        0
    }
}

/// An assignment with some variables replaced by numbers.
pub open spec fn overwrite<F: Field>(
    w: Seq<F>,
    from: int,
    to: int,
    f: spec_fn(int) -> int,
) -> Seq<F> {
    Seq::new(
        w.len(),
        |i: int|
            if from <= i < to {
                F::of_int(f(i))
            } else {
                w[i]
            },
    )
}

/// Set a variable.
fn put<F: Field>(w: &mut Vec<F>, i: usize, n: u64)
    requires
        i < old(w)@.len(),
    ensures
        final(w)@ == old(w)@.update(i as int, F::of_int(n as int)),
{
    w.set(i, F::from_u64(n));
}

/// Set two limbs of a word.
fn set_u64_limbs<F: Field>(w: &mut Vec<F>, col: usize, val: u64)
    requires
        old(w)@.len() == NUM_VARS,
        col + 1 < NUM_VARS,
    ensures
        final(w)@ == overwrite(old(w)@, col as int, col + 2, |i: int| limb(val as int, i - col)),
{
    let ghost before = w@;
    put(w, col, val % LIMB);
    put(w, col + 1, val / LIMB);
    assert(w@ =~= overwrite(before, col as int, col + 2, |i: int| limb(val as int, i - col)));
}

/// The residue of a signed number.
fn residue(v: i128, m: i128) -> (r: u64)
    requires
        0 < m <= word(),
    ensures
        r == (v as int) % (m as int),
{
    match v.checked_rem_euclid(m) {
        Some(x) => x as u64,
        None => 0,
    }
}

/// The quotient, rounded down, of a signed number.
fn quotient(v: i128, m: i128) -> (r: i128)
    requires
        m > 0,
    ensures
        r == (v as int) / (m as int),
{
    proof {
        assert(-0x8000_0000_0000_0000_0000_0000_0000_0000 <= (v as int) / (m as int)
            <= 0x7fff_ffff_ffff_ffff_ffff_ffff_ffff_ffff) by (nonlinear_arith)
            requires
                m > 0,
                -0x8000_0000_0000_0000_0000_0000_0000_0000 <= v
                    <= 0x7fff_ffff_ffff_ffff_ffff_ffff_ffff_ffff,
        ;
    }
    match v.checked_div_euclid(m) {
        Some(x) => x,
        None => 0,
    }
}

/// Set the two limbs of a signed number, the high one signed.
fn set_signed_limbs<F: Field>(w: &mut Vec<F>, col: usize, v: i128)
    requires
        old(w)@.len() == NUM_VARS,
        col + 1 < NUM_VARS,
    ensures
        final(w)@ == overwrite(
            old(w)@,
            col as int,
            col + 2,
            |i: int|
                if i == col {
                    (v as int) % (LIMB as int)
                } else {
                    (v as int) / (LIMB as int)
                },
        ),
{
    let ghost before = w@;
    put(w, col, residue(v, 0x1_0000_0000));
    w.set(col + 1, F::from_i128(quotient(v, 0x1_0000_0000)));
    assert(w@ =~= overwrite(
        before,
        col as int,
        col + 2,
        |i: int|
            if i == col {
                (v as int) % (LIMB as int)
            } else {
                (v as int) / (LIMB as int)
            },
    ));
}

/// A number below `2^128` with its limbs given is read off by the limbs.
pub proof fn lemma_limbs(x: int, p0: int, p1: int, p2: int, p3: int)
    requires
        0 <= p0 < LIMB,
        0 <= p1 < LIMB,
        0 <= p2 < LIMB,
        0 <= p3 < word(),
        x == p0 + p1 * LIMB + p2 * word() + p3 * three_limbs(),
    ensures
        limb(x, 0) == p0,
        limb(x, 1) == p1,
        limb(x, 2) == p2,
        limb(x, 3) == p3,
{
    let l = LIMB as int;
    assert(word() == l * l);
    vstd::arithmetic::div_mod::lemma_fundamental_div_mod_converse(
        x,
        l,
        p1 + p2 * l + p3 * word(),
        p0,
    );
    vstd::arithmetic::div_mod::lemma_fundamental_div_mod_converse(
        p1 + p2 * l + p3 * word(),
        l,
        p2 + p3 * l,
        p1,
    );
    vstd::arithmetic::div_mod::lemma_fundamental_div_mod_converse(
        x,
        word(),
        p2 + p3 * l,
        p0 + p1 * l,
    );
    vstd::arithmetic::div_mod::lemma_fundamental_div_mod_converse(p2 + p3 * l, l, p3, p2);
    vstd::arithmetic::div_mod::lemma_fundamental_div_mod_converse(
        x,
        three_limbs(),
        p3,
        p0 + p1 * l + p2 * word(),
    );
    vstd::arithmetic::div_mod::lemma_small_mod(p3 as nat, word() as nat);
}

/// A word is its two limbs, and its higher limbs are zero.
pub proof fn lemma_word_limbs(x: int)
    requires
        0 <= x < word(),
    ensures
        x == limb(x, 0) + limb(x, 1) * LIMB,
        limb(x, 0) == x % (LIMB as int),
        limb(x, 1) == x / (LIMB as int),
        limb(x, 2) == 0,
        limb(x, 3) == 0,
        0 <= limb(x, 0) < LIMB,
        0 <= limb(x, 1) < LIMB,
{
    let l = LIMB as int;
    lemma_limbs(x, x % l, x / l, 0, 0);
}

proof fn lemma_limb_bounds(a: int, b: int)
    requires
        0 <= a < LIMB,
        0 <= b < LIMB,
    ensures
        0 <= a * b <= 0xffff_fffe_0000_0001,
{
    assert(0 <= a * b <= 0xffff_ffff * 0xffff_ffff) by (nonlinear_arith)
        requires
            0 <= a <= 0xffff_ffff,
            0 <= b <= 0xffff_ffff,
    ;
}

proof fn lemma_schoolbook(a0: int, a1: int, b0: int, b1: int, l: int)
    ensures
        (a0 + a1 * l) * (b0 + b1 * l) == a0 * b0 + (a0 * b1 + a1 * b0) * l + a1 * b1 * (l * l),
{
    let y = b0 + b1 * l;
    assert((a0 + a1 * l) * y == a0 * y + (a1 * l) * y) by (nonlinear_arith);
    assert(a0 * y == a0 * b0 + a0 * (b1 * l)) by (nonlinear_arith)
        requires
            y == b0 + b1 * l,
    ;
    assert((a1 * l) * y == (a1 * l) * b0 + (a1 * l) * (b1 * l)) by (nonlinear_arith)
        requires
            y == b0 + b1 * l,
    ;
    assert(a0 * (b1 * l) == a0 * b1 * l) by (nonlinear_arith);
    assert((a1 * l) * b0 == a1 * b0 * l) by (nonlinear_arith);
    assert((a1 * l) * (b1 * l) == a1 * b1 * (l * l)) by (nonlinear_arith);
    assert((a0 * b1 + a1 * b0) * l == a0 * b1 * l + a1 * b0 * l) by (nonlinear_arith);
}

/// The schoolbook product: the limb products and carries recompose to the product's limbs, and the
/// last carry is the last limb.
pub proof fn law_product_limbs(left: int, right: int)
    requires
        0 <= left < word(),
        0 <= right < word(),
    ensures
        limb_product(left, right, 0) == limb(left * right, 0) + LIMB * carry_0(left, right),
        limb_product(left, right, 1) + limb_product(left, right, 2) + carry_0(left, right) == limb(
            left * right,
            1,
        ) + LIMB * carry_1(left, right),
        limb_product(left, right, 3) + carry_1(left, right) == limb(left * right, 2) + LIMB
            * carry_2(left, right),
        carry_2(left, right) == limb(left * right, 3),
        left * right == limb(left * right, 0) + limb(left * right, 1) * LIMB + limb(
            left * right,
            2,
        ) * word() + limb(left * right, 3) * three_limbs(),
        0 <= carry_0(left, right) < LIMB,
        0 <= carry_1(left, right) < 2 * LIMB,
        0 <= carry_2(left, right) < LIMB,
{
    let l = LIMB as int;
    let (a0, a1) = (limb(left, 0), limb(left, 1));
    let (b0, b1) = (limb(right, 0), limb(right, 1));
    lemma_word_limbs(left);
    lemma_word_limbs(right);
    lemma_limb_bounds(a0, b0);
    lemma_limb_bounds(a0, b1);
    lemma_limb_bounds(a1, b0);
    lemma_limb_bounds(a1, b1);
    let q0 = a0 * b0;
    let q1 = a0 * b1;
    let q2 = a1 * b0;
    let q3 = a1 * b1;
    lemma_schoolbook(a0, a1, b0, b1, l);
    let c0 = carry_0(left, right);
    let s1 = q1 + q2 + c0;
    let c1 = carry_1(left, right);
    let s2 = q3 + c1;
    let c2 = carry_2(left, right);
    lemma_limbs(left * right, q0 % l, s1 % l, s2 % l, c2);
}

/// The product variables of `left * right_mag`, where the left input is unsigned.
pub fn fill_product<F: Field>(w: &mut Vec<F>, left: u64, right_mag: u64, right_sign: bool)
    requires
        old(w)@.len() == NUM_VARS,
    ensures
        final(w)@ == overwrite(
            old(w)@,
            LEFT as int,
            ADD_C0 as int,
            |i: int| product_cell(i, left as int, right_mag as int, right_sign),
        ),
{
    proof {
        reveal(product_cell);
    }
    let ghost before = w@;
    proof {
        lemma_word_limbs(left as int);
        lemma_word_limbs(right_mag as int);
        law_product_limbs(left as int, right_mag as int);
    }
    let (llo, lhi) = (left % LIMB, left / LIMB);
    let (rlo, rhi) = (right_mag % LIMB, right_mag / LIMB);
    proof {
        lemma_limb_bounds(llo as int, rlo as int);
        lemma_limb_bounds(llo as int, rhi as int);
        lemma_limb_bounds(lhi as int, rlo as int);
        lemma_limb_bounds(lhi as int, rhi as int);
    }
    let q0: u64 = llo * rlo;
    let q1: u64 = llo * rhi;
    let q2: u64 = lhi * rlo;
    let q3: u64 = lhi * rhi;
    let (p0, c0) = (q0 % LIMB, q0 / LIMB);
    let s1: u128 = q1 as u128 + q2 as u128 + c0 as u128;
    let p1: u64 = (s1 % (LIMB as u128)) as u64;
    let c1: u64 = (s1 / (LIMB as u128)) as u64;
    let s2: u128 = q3 as u128 + c1 as u128;
    let p2: u64 = (s2 % (LIMB as u128)) as u64;
    let c2: u64 = (s2 / (LIMB as u128)) as u64;
    let sign: u64 = if right_sign {
        1
    } else {
        0
    };
    put(w, LEFT, llo);
    put(w, LEFT + 1, lhi);
    put(w, LEFT_SIGN, 0);
    put(w, RIGHT_MAG, rlo);
    put(w, RIGHT_MAG + 1, rhi);
    put(w, RIGHT_SIGN, sign);
    put(w, PRODUCT, p0);
    put(w, PRODUCT + 1, p1);
    put(w, PRODUCT + 2, p2);
    put(w, PRODUCT + 3, c2);
    put(w, PRODUCT_SIGN, sign);
    put(w, Q, q0);
    put(w, Q + 1, q1);
    put(w, Q + 2, q2);
    put(w, Q + 3, q3);
    put(w, MUL_C0, c0);
    put(w, MUL_C1, c1);
    put(w, MUL_C2, c2);
    put(w, SIGN_PROD, 0);
    assert(w@ =~= overwrite(
        before,
        LEFT as int,
        ADD_C0 as int,
        |i: int| product_cell(i, left as int, right_mag as int, right_sign),
    ));
}

/// The value read from a register operand, zero if there is none.
pub open spec fn read_value(operand: Option<(u8, u64)>) -> int {
    match operand {
        Some((_, value)) => value as int,
        None => 0,
    }
}

/// A value, zero if there is none.
pub open spec fn value_or_zero(value: Option<u64>) -> int {
    match value {
        Some(v) => v as int,
        None => 0,
    }
}

/// The left input of a cycle.
pub open spec fn left_input(row: CycleRow) -> int {
    if row.instruction_flags.left_operand_is_pc {
        row.unexpanded_pc as int
    } else if row.instruction_flags.left_operand_is_rs1_value {
        read_value(row.rs1_read)
    } else {
        0
    }
}

/// The right input of a cycle.
pub open spec fn right_input(row: CycleRow) -> int {
    if row.instruction_flags.right_operand_is_imm {
        row.imm as int
    } else if row.instruction_flags.right_operand_is_rs2_value {
        read_value(row.rs2_read)
    } else {
        0
    }
}

/// The magnitude of a number.
pub open spec fn magnitude(x: int) -> int {
    if x < 0 {
        -x
    } else {
        x
    }
}

/// The right lookup operand of a cycle.
pub open spec fn right_operand(row: CycleRow) -> int {
    let flags = row.circuit_flags;
    if flags.add_operands {
        left_input(row) + right_input(row) % word()
    } else if flags.subtract_operands {
        left_input(row) + word() - right_input(row) % word()
    } else if flags.multiply_operands {
        left_input(row) * magnitude(right_input(row))
    } else if flags.advice {
        row.lookup_output as int
    } else {
        right_input(row)
    }
}

/// The low carry of a sum of two words.
pub open spec fn add_carry(left: int, right: int) -> int {
    (limb(left, 0) + limb(right, 0)) / (LIMB as int)
}

/// The low carry of adding a word back to a difference.
pub open spec fn sub_carry_0(left: int, right: int) -> int {
    (limb(left + word() - right, 0) + limb(right, 0)) / (LIMB as int)
}

/// The high carry of adding a word back to a difference.
pub open spec fn sub_carry_1(left: int, right: int) -> int {
    (limb(left + word() - right, 1) + limb(right, 1) + sub_carry_0(left, right)) / (LIMB as int)
}

/// The address a cycle accesses.
pub open spec fn accessed_address(row: CycleRow) -> int {
    if row.circuit_flags.load || row.circuit_flags.store {
        (read_value(row.rs1_read) + row.imm) % word()
    } else {
        value_or_zero(row.ram_access_address)
    }
}

/// A lookup variable of an active cycle.
#[verifier::opaque]
pub open spec fn operand_cell(row: CycleRow, i: int) -> int {
    let flags = row.circuit_flags;
    let left = left_input(row);
    let right = right_input(row) % word();
    let subtracts = !flags.add_operands && flags.subtract_operands;
    if i == ADD_C0 {
        if flags.add_operands {
            add_carry(left, right)
        } else {
            0
        }
    } else if i < SUB_C0 {
        limb(right_operand(row), i - RLO)
    } else if i == SUB_C0 {
        if subtracts {
            sub_carry_0(left, right)
        } else {
            0
        }
    } else if i == SUB_C1 {
        if subtracts {
            sub_carry_1(left, right)
        } else {
            0
        }
    } else if i < LEFT_LOOKUP {
        limb(row.lookup_output as int, i - LOOKUP_OUTPUT)
    } else if flags.interleaved() {
        limb(left, i - LEFT_LOOKUP)
    } else {
        0
    }
}

/// A register, memory or program counter variable of an active cycle.
#[verifier::opaque]
pub open spec fn state_cell(row: CycleRow, pc: int, i: int) -> int {
    if i < RS2 {
        limb(read_value(row.rs1_read), i - RS1)
    } else if i < RD_WRITE {
        limb(read_value(row.rs2_read), i - RS2)
    } else if i < RAM_READ {
        limb(
            match row.rd_write {
                Some((_, _, post)) => post as int,
                None => 0,
            },
            i - RD_WRITE,
        )
    } else if i < RAM_WRITE {
        limb(value_or_zero(row.ram_read_value), i - RAM_READ)
    } else if i < RAM_ADDRESS {
        limb(value_or_zero(row.ram_write_value), i - RAM_WRITE)
    } else if i < RAM_ADDR_C0 {
        limb(accessed_address(row), i - RAM_ADDRESS)
    } else if i == RAM_ADDR_C0 {
        if row.circuit_flags.load || row.circuit_flags.store {
            (limb(read_value(row.rs1_read), 0) + (row.imm as int) % (LIMB as int)) / (LIMB as int)
        } else {
            0
        }
    } else if i == PC {
        pc
    } else if i == UNEXPANDED_PC {
        row.unexpanded_pc as int
    } else if i == IMM {
        (row.imm as int) % (LIMB as int)
    } else {
        (row.imm as int) / (LIMB as int)
    }
}

/// A flag variable of an active cycle.
#[verifier::opaque]
pub open spec fn flag_cell(row: CycleRow, i: int) -> int {
    if i < BRANCH {
        num(row.circuit_flags.bits()[i - F_ADD])
    } else if i == BRANCH {
        num(row.instruction_flags.branch)
    } else {
        row.lookup_output * num(row.instruction_flags.branch)
    }
}

/// A variable about the next cycle; zero after the last cycle.
#[verifier::opaque]
pub open spec fn next_cell(trace: Seq<CycleRow>, t: int, pcs: Seq<u64>, i: int) -> int {
    if t + 1 < trace.len() {
        let next = trace[t + 1];
        if i == NEXT_PC {
            pc_at(pcs, t + 1)
        } else if i == NEXT_UNEXPANDED_PC {
            next.unexpanded_pc as int
        } else if i == NEXT_IS_VIRTUAL {
            num(next.circuit_flags.virtual_instruction)
        } else {
            num(next.circuit_flags.is_first_in_sequence)
        }
    } else {
        0
    }
}

/// The bytecode index of a cycle, zero if it is not given.
pub open spec fn pc_at(pcs: Seq<u64>, t: int) -> int {
    if t < pcs.len() {
        pcs[t] as int
    } else {
        0
    }
}

/// The next cycle does nothing, or there is none.
pub open spec fn next_is_noop(trace: Seq<CycleRow>, t: int) -> bool {
    t + 1 < trace.len() ==> trace[t + 1].is_noop
}

/// A variable of an active cycle that does not depend on the next cycle.
pub open spec fn active_cell(row: CycleRow, pc: int, i: int) -> int {
    if i < ADD_C0 {
        let right = right_input(row);
        product_cell(i, left_input(row), magnitude(right), right < 0)
    } else if i < RS1 {
        operand_cell(row, i)
    } else if i < F_ADD {
        state_cell(row, pc, i)
    } else {
        flag_cell(row, i)
    }
}

/// A variable of the cycle at `t`.
pub open spec fn cycle_cell(trace: Seq<CycleRow>, t: int, pcs: Seq<u64>, i: int) -> int {
    let row = trace[t];
    if i == CONST_ONE {
        1
    } else if i == NEXT_IS_NOOP {
        num(next_is_noop(trace, t))
    } else if NEXT_PC <= i < SHOULD_JUMP {
        next_cell(trace, t, pcs, i)
    } else if row.is_noop {
        num(i == F_DO_NOT_UPDATE_PC)
    } else if i < NEXT_PC {
        active_cell(row, pc_at(pcs, t), i)
    } else {
        num(row.circuit_flags.jump) * (1 - num(next_is_noop(trace, t)))
    }
}

/// The assignment of the cycle at `t`.
pub open spec fn assignment<F: Field>(trace: Seq<CycleRow>, t: int, pcs: Seq<u64>) -> Seq<F> {
    Seq::new(NUM_VARS as nat, |i: int| F::of_int(cycle_cell(trace, t, pcs, i)))
}

/// The right input is at most a word, and the address arithmetic does not overflow.
pub open spec fn row_fits(row: CycleRow) -> bool {
    !row.is_noop ==> {
        &&& magnitude(right_input(row)) < word()
        &&& (row.circuit_flags.load || row.circuit_flags.store) ==> read_value(row.rs1_read)
            + row.imm <= i128::MAX
    }
}

/// The limbs of the sum, and its carry.
pub fn fill_add_rlo<F: Field>(w: &mut Vec<F>, left: u64, right: u64)
    requires
        old(w)@.len() == NUM_VARS,
    ensures
        final(w)@ == overwrite(
            old(w)@,
            ADD_C0 as int,
            SUB_C0 as int,
            |i: int|
                if i == ADD_C0 {
                    add_carry(left as int, right as int)
                } else {
                    limb(left + right, i - RLO)
                },
        ),
{
    let ghost before = w@;
    let total: u128 = left as u128 + right as u128;
    let low: u128 = total % 0x1_0000_0000_0000_0000;
    let c0: u64 = (left % LIMB + right % LIMB) / LIMB;
    put(w, ADD_C0, c0);
    let p0: u64 = (low % 0x1_0000_0000) as u64;
    let p1: u64 = (low / 0x1_0000_0000) as u64;
    let p2: u64 = (total / 0x1_0000_0000_0000_0000) as u64;
    proof {
        lemma_limbs(left + right, p0 as int, p1 as int, p2 as int, 0);
    }
    put(w, RLO, p0);
    put(w, RLO + 1, p1);
    put(w, RLO + 2, p2);
    put(w, RLO + 3, 0);
    assert(w@ =~= overwrite(
        before,
        ADD_C0 as int,
        SUB_C0 as int,
        |i: int|
            if i == ADD_C0 {
                add_carry(left as int, right as int)
            } else {
                limb(left + right, i - RLO)
            },
    ));
}

/// The limbs of the difference plus `2^64`, and the carries of adding the right word back.
pub fn fill_sub_rlo<F: Field>(w: &mut Vec<F>, left: u64, right: u64)
    requires
        old(w)@.len() == NUM_VARS,
    ensures
        final(w)@ == overwrite(
            old(w)@,
            RLO as int,
            LOOKUP_OUTPUT as int,
            |i: int|
                if i < SUB_C0 {
                    limb(left + word() - right, i - RLO)
                } else if i == SUB_C0 {
                    sub_carry_0(left as int, right as int)
                } else {
                    sub_carry_1(left as int, right as int)
                },
        ),
{
    let ghost before = w@;
    let total: u128 = left as u128 + 0x1_0000_0000_0000_0000 - right as u128;
    let low: u128 = total % 0x1_0000_0000_0000_0000;
    let r0: u64 = (low % 0x1_0000_0000) as u64;
    let r1: u64 = (low / 0x1_0000_0000) as u64;
    let r2: u64 = (total / 0x1_0000_0000_0000_0000) as u64;
    proof {
        lemma_limbs(left + word() - right, r0 as int, r1 as int, r2 as int, 0);
        lemma_word_limbs(right as int);
    }
    put(w, RLO, r0);
    put(w, RLO + 1, r1);
    put(w, RLO + 2, r2);
    put(w, RLO + 3, 0);
    let c0: u64 = (r0 + right % LIMB) / LIMB;
    put(w, SUB_C0, c0);
    let c1: u64 = (r1 + right / LIMB + c0) / LIMB;
    put(w, SUB_C1, c1);
    assert(w@ =~= overwrite(
        before,
        RLO as int,
        LOOKUP_OUTPUT as int,
        |i: int|
            if i < SUB_C0 {
                limb(left + word() - right, i - RLO)
            } else if i == SUB_C0 {
                sub_carry_0(left as int, right as int)
            } else {
                sub_carry_1(left as int, right as int)
            },
    ));
}

/// The four limbs of a signed number.
fn set_operand<F: Field>(w: &mut Vec<F>, v: i128)
    requires
        old(w)@.len() == NUM_VARS,
    ensures
        final(w)@ == overwrite(
            old(w)@,
            RLO as int,
            SUB_C0 as int,
            |i: int| limb(v as int, i - RLO),
        ),
{
    let ghost before = w@;
    put(w, RLO, residue(v, 0x1_0000_0000));
    put(w, RLO + 1, residue(quotient(v, 0x1_0000_0000), 0x1_0000_0000));
    put(w, RLO + 2, residue(quotient(v, 0x1_0000_0000_0000_0000), 0x1_0000_0000));
    put(
        w,
        RLO + 3,
        residue(quotient(v, 0x1_0000_0000_0000_0000_0000_0000), 0x1_0000_0000_0000_0000),
    );
    assert(w@ =~= overwrite(before, RLO as int, SUB_C0 as int, |i: int| limb(v as int, i - RLO)));
}

/// The lookup variables of an active cycle.
#[verifier::rlimit(40)]
fn fill_operands<F: Field>(w: &mut Vec<F>, row: &CycleRow, left: u64, right: i128)
    requires
        old(w)@.len() == NUM_VARS,
        left == left_input(*row),
        right == right_input(*row),
        forall|i: int| ADD_C0 <= i < RS1 ==> #[trigger] old(w)@[i] == F::of_int(0),
        forall|i: int|
            PRODUCT <= i < PRODUCT_SIGN ==> #[trigger] old(w)@[i] == F::of_int(
                limb(left * magnitude(right as int), i - PRODUCT),
            ),
    ensures
        final(w)@ == overwrite(
            old(w)@,
            ADD_C0 as int,
            RS1 as int,
            |i: int| operand_cell(*row, i),
        ),
{
    proof {
        reveal(operand_cell);
    }
    let ghost before = w@;
    let flags = row.circuit_flags;
    set_u64_limbs(w, LOOKUP_OUTPUT, row.lookup_output);
    if flags.add_operands {
        fill_add_rlo(w, left, residue(right, 0x1_0000_0000_0000_0000));
    } else if flags.subtract_operands {
        fill_sub_rlo(w, left, residue(right, 0x1_0000_0000_0000_0000));
    } else if flags.multiply_operands {
        let p0: F = w[PRODUCT];
        let p1: F = w[PRODUCT + 1];
        let p2: F = w[PRODUCT + 2];
        let p3: F = w[PRODUCT + 3];
        assert(p0 == before[PRODUCT as int] && p1 == before[PRODUCT + 1]);
        assert(p2 == before[PRODUCT + 2] && p3 == before[PRODUCT + 3]);
        w.set(RLO, p0);
        w.set(RLO + 1, p1);
        w.set(RLO + 2, p2);
        w.set(RLO + 3, p3);
    } else if flags.advice {
        proof {
            lemma_word_limbs(row.lookup_output as int);
        }
        put(w, RLO, row.lookup_output % LIMB);
        put(w, RLO + 1, row.lookup_output / LIMB);
        assert(w@[RLO + 2] == before[RLO + 2] && w@[RLO + 3] == before[RLO + 3]);
    } else {
        set_u64_limbs(w, LEFT_LOOKUP, left);
        set_operand(w, right);
    }
    assert(w@ =~= overwrite(before, ADD_C0 as int, RS1 as int, |i: int| operand_cell(*row, i)));
}

/// The register, memory and program counter variables of an active cycle.
#[verifier::rlimit(40)]
fn fill_state<F: Field>(w: &mut Vec<F>, row: &CycleRow, pc: u64)
    requires
        old(w)@.len() == NUM_VARS,
        !row.is_noop,
        row_fits(*row),
        forall|i: int| RS1 <= i < F_ADD ==> #[trigger] old(w)@[i] == F::of_int(0),
    ensures
        final(w)@ == overwrite(
            old(w)@,
            RS1 as int,
            F_ADD as int,
            |i: int| state_cell(*row, pc as int, i),
        ),
{
    proof {
        reveal(state_cell);
    }
    let ghost before = w@;
    let rs1: u64 = match row.rs1_read {
        Some((_, value)) => value,
        None => 0,
    };
    let rs2: u64 = match row.rs2_read {
        Some((_, value)) => value,
        None => 0,
    };
    let post: u64 = match row.rd_write {
        Some((_, _, value)) => value,
        None => 0,
    };
    set_u64_limbs(w, RS1, rs1);
    set_u64_limbs(w, RS2, rs2);
    set_u64_limbs(w, RD_WRITE, post);
    set_u64_limbs(w, RAM_READ, or_zero(row.ram_read_value));
    set_u64_limbs(w, RAM_WRITE, or_zero(row.ram_write_value));
    if row.circuit_flags.load || row.circuit_flags.store {
        let address: i128 = rs1 as i128 + row.imm;
        set_u64_limbs(w, RAM_ADDRESS, residue(address, 0x1_0000_0000_0000_0000));
        let imm_low: u64 = residue(row.imm, 0x1_0000_0000);
        put(w, RAM_ADDR_C0, (rs1 % LIMB + imm_low) / LIMB);
    } else {
        set_u64_limbs(w, RAM_ADDRESS, or_zero(row.ram_access_address));
    }
    put(w, PC, pc);
    put(w, UNEXPANDED_PC, row.unexpanded_pc);
    set_signed_limbs(w, IMM, row.imm);
    assert(w@ =~= overwrite(
        before,
        RS1 as int,
        F_ADD as int,
        |i: int| state_cell(*row, pc as int, i),
    ));
}

/// A value, zero if there is none.
fn or_zero(value: Option<u64>) -> (r: u64)
    ensures
        r == value_or_zero(value),
{
    match value {
        Some(v) => v,
        None => 0,
    }
}

/// A truth value as a number.
fn as_number(b: bool) -> (r: u64)
    ensures
        r == num(b),
{
    if b {
        1
    } else {
        0
    }
}

/// The flag variables of an active cycle.
fn fill_flags<F: Field>(w: &mut Vec<F>, row: &CycleRow)
    requires
        old(w)@.len() == NUM_VARS,
    ensures
        final(w)@ == overwrite(old(w)@, F_ADD as int, NEXT_PC as int, |i: int| flag_cell(*row, i)),
{
    proof {
        reveal(flag_cell);
    }
    let ghost before = w@;
    for t in 0..NUM_CIRCUIT_FLAGS
        invariant
            w@ == overwrite(before, F_ADD as int, F_ADD + t, |i: int| flag_cell(*row, i)),
            before.len() == NUM_VARS,
    {
        proof {
            reveal(flag_cell);
        }
        put(w, F_ADD + t, as_number(row.circuit_flags.bit(t)));
        assert(w@ =~= overwrite(before, F_ADD as int, F_ADD + t + 1, |i: int| flag_cell(*row, i)));
    }
    let branch: u64 = as_number(row.instruction_flags.branch);
    put(w, BRANCH, branch);
    let lookup_output: F = F::from_u64(row.lookup_output);
    let branch_value: F = w[BRANCH];
    proof {
        F::law_of_int_times(row.lookup_output as int, branch as int);
    }
    w.set(SHOULD_BRANCH, lookup_output.mul(branch_value));
    assert(w@ =~= overwrite(before, F_ADD as int, NEXT_PC as int, |i: int| flag_cell(*row, i)));
}

/// The bytecode index of a cycle, zero if it is not given.
fn pc_or_zero(pcs: &[u64], t: usize) -> (r: u64)
    ensures
        r == pc_at(pcs@, t as int),
{
    if t < pcs.len() {
        pcs[t]
    } else {
        0
    }
}

/// The variables about the next cycle.
fn fill_next<F: Field>(w: &mut Vec<F>, trace: &[CycleRow], t: usize, pcs: &[u64])
    requires
        old(w)@.len() == NUM_VARS,
        t < trace@.len(),
        forall|i: int| NEXT_PC <= i < SHOULD_JUMP ==> #[trigger] old(w)@[i] == F::of_int(0),
    ensures
        final(w)@ == overwrite(
            old(w)@,
            NEXT_PC as int,
            SHOULD_JUMP as int,
            |i: int| next_cell(trace@, t as int, pcs@, i),
        ),
{
    proof {
        reveal(next_cell);
    }
    let ghost before = w@;
    let len: usize = trace.len();
    if t + 1 < len {
        let next = trace[t + 1];
        put(w, NEXT_PC, pc_or_zero(pcs, t + 1));
        put(w, NEXT_UNEXPANDED_PC, next.unexpanded_pc);
        put(w, NEXT_IS_VIRTUAL, as_number(next.circuit_flags.virtual_instruction));
        put(w, NEXT_IS_FIRST_IN_SEQUENCE, as_number(next.circuit_flags.is_first_in_sequence));
    }
    assert(w@ =~= overwrite(
        before,
        NEXT_PC as int,
        SHOULD_JUMP as int,
        |i: int| next_cell(trace@, t as int, pcs@, i),
    ));
}

proof fn lemma_zero_product(i: int)
    requires
        LEFT <= i < ADD_C0,
    ensures
        product_cell(i, 0, 0, false) == 0,
{
    reveal(product_cell);
    lemma_word_limbs(0);
    law_product_limbs(0, 0);
    assert forall|k: int| limb_product(0, 0, k) == 0 by {
        assert(limb(0, k / 2) == 0);
        assert(limb(0, k % 2) == 0);
    }
}

/// The variables of an active cycle that do not depend on the next cycle.
fn fill_active<F: Field>(w: &mut Vec<F>, row: &CycleRow, pc: u64)
    requires
        old(w)@.len() == NUM_VARS,
        !row.is_noop,
        row_fits(*row),
        forall|i: int| LEFT <= i < NEXT_PC ==> #[trigger] old(w)@[i] == F::of_int(0),
    ensures
        final(w)@ == overwrite(
            old(w)@,
            LEFT as int,
            NEXT_PC as int,
            |i: int| active_cell(*row, pc as int, i),
        ),
{
    let ghost before = w@;
    let left: u64 = if row.instruction_flags.left_operand_is_pc {
        row.unexpanded_pc
    } else if row.instruction_flags.left_operand_is_rs1_value {
        match row.rs1_read {
            Some((_, value)) => value,
            None => 0,
        }
    } else {
        0
    };
    let right: i128 = if row.instruction_flags.right_operand_is_imm {
        row.imm
    } else if row.instruction_flags.right_operand_is_rs2_value {
        match row.rs2_read {
            Some((_, value)) => value as i128,
            None => 0,
        }
    } else {
        0
    };
    let right_mag: u64 = if right < 0 {
        (-right) as u64
    } else {
        right as u64
    };
    fill_product(w, left, right_mag, right < 0);
    assert forall|i: int| PRODUCT <= i < PRODUCT_SIGN implies #[trigger] w@[i] == F::of_int(
        limb(left * magnitude(right as int), i - PRODUCT),
    ) by {
        reveal(product_cell);
    }
    fill_operands(w, row, left, right);
    fill_state(w, row, pc);
    fill_flags(w, row);
    assert(w@ =~= overwrite(
        before,
        LEFT as int,
        NEXT_PC as int,
        |i: int| active_cell(*row, pc as int, i),
    ));
}

/// The variables of a cycle that does nothing.
fn fill_noop<F: Field>(w: &mut Vec<F>)
    requires
        old(w)@.len() == NUM_VARS,
        forall|i: int| LEFT <= i < ADD_C0 ==> #[trigger] old(w)@[i] == F::of_int(0),
    ensures
        final(w)@ == old(w)@.update(F_DO_NOT_UPDATE_PC as int, F::of_int(1)),
{
    let ghost before = w@;
    put(w, F_DO_NOT_UPDATE_PC, 1);
    fill_product(w, 0, 0, false);
    assert forall|i: int| 0 <= i < NUM_VARS implies #[trigger] w@[i] == before.update(
        F_DO_NOT_UPDATE_PC as int,
        F::of_int(1),
    )[i] by {
        if LEFT <= i < ADD_C0 {
            lemma_zero_product(i);
        }
    }
    assert(w@ =~= before.update(F_DO_NOT_UPDATE_PC as int, F::of_int(1)));
}

/// Whether the cycle jumps to a cycle that does something.
fn fill_jump<F: Field>(w: &mut Vec<F>, row: &CycleRow, next_noop: bool)
    requires
        old(w)@.len() == NUM_VARS,
        old(w)@[F_JUMP as int] == F::of_int(flag_cell(*row, F_JUMP as int)),
        old(w)@[NEXT_IS_NOOP as int] == F::of_int(num(next_noop)),
    ensures
        final(w)@ == old(w)@.update(
            SHOULD_JUMP as int,
            F::of_int(num(row.circuit_flags.jump) * (1 - num(next_noop))),
        ),
{
    let jump: F = w[F_JUMP];
    let noop: F = w[NEXT_IS_NOOP];
    let one: F = field::one();
    proof {
        let j = num(row.circuit_flags.jump);
        let n = num(next_noop);
        assert(jump == F::of_int(j)) by {
            reveal(flag_cell);
        }
        F::law_minus(F::of_int(1), F::of_int(n));
        F::law_of_int_times(n, -1);
        assert(n * -1 == -n);
        F::law_of_int_plus(1, -n);
        F::law_of_int_times(j, 1 - n);
    }
    w.set(SHOULD_JUMP, jump.mul(one.sub(noop)));
}

/// The assignment of the cycle at `t`. The index of its bytecode row is looked up in `pcs`.
pub fn cycle_to_z<F: Field>(trace: &[CycleRow], t: usize, pcs: &[u64]) -> (r: Vec<F>)
    requires
        t < trace@.len(),
        row_fits(trace@[t as int]),
    ensures
        r@ == assignment::<F>(trace@, t as int, pcs@),
{
    let mut w: Vec<F> = poly::zeros(NUM_VARS);
    let row = trace[t];
    let len: usize = trace.len();
    let last_or_noop: bool = if t + 1 < len {
        trace[t + 1].is_noop
    } else {
        true
    };
    put(&mut w, CONST_ONE, 1);
    put(&mut w, NEXT_IS_NOOP, as_number(last_or_noop));
    fill_next(&mut w, trace, t, pcs);
    if row.is_noop {
        fill_noop(&mut w);
        assert(w@ =~= assignment::<F>(trace@, t as int, pcs@));
        return w;
    }
    fill_active(&mut w, &row, pc_or_zero(pcs, t));
    fill_jump(&mut w, &row, last_or_noop);
    assert(w@ =~= assignment::<F>(trace@, t as int, pcs@));
    w
}

/// The assignments of every cycle of a trace.
pub fn build_limbed_z<F: Field>(trace: &[CycleRow], pcs: &[u64]) -> (r: Vec<Vec<F>>)
    requires
        forall|t: int| 0 <= t < trace@.len() ==> row_fits(#[trigger] trace@[t]),
    ensures
        r@.len() == trace@.len(),
        forall|t: int|
            0 <= t < trace@.len() ==> (#[trigger] r@[t])@ == assignment::<F>(trace@, t, pcs@),
{
    let mut out: Vec<Vec<F>> = Vec::new();
    for t in 0..trace.len()
        invariant
            forall|t: int| 0 <= t < trace@.len() ==> row_fits(#[trigger] trace@[t]),
            out@.len() == t,
            forall|i: int|
                0 <= i < t ==> (#[trigger] out@[i])@ == assignment::<F>(trace@, i, pcs@),
    {
        out.push(cycle_to_z(trace, t, pcs));
    }
    out
}

/// Adding words limb by limb: the low carry is a bit, and the carry out of the second limb is the
/// third limb of the sum.
pub proof fn law_sum_limbs(left: int, right: int)
    requires
        0 <= left < word(),
        0 <= right < word(),
    ensures
        limb(left, 0) + limb(right, 0) == limb(left + right, 0) + LIMB * add_carry(left, right),
        limb(left, 1) + limb(right, 1) + add_carry(left, right) == limb(left + right, 1) + LIMB * limb(
            left + right,
            2,
        ),
        limb(left + right, 3) == 0,
        0 <= add_carry(left, right) <= 1,
{
    let l = LIMB as int;
    lemma_word_limbs(left);
    lemma_word_limbs(right);
    let low = limb(left, 0) + limb(right, 0);
    let high = limb(left, 1) + limb(right, 1) + add_carry(left, right);
    lemma_limbs(left + right, low % l, high % l, high / l, 0);
}

/// Adding the right word back to the difference limb by limb gives the left word plus `2^64`, and
/// both carries are bits.
pub proof fn law_difference_limbs(left: int, right: int)
    requires
        0 <= left < word(),
        0 <= right < word(),
    ensures
        ({
            let d = left + word() - right;
            &&& limb(d, 0) + limb(right, 0) == limb(left, 0) + LIMB * sub_carry_0(left, right)
            &&& limb(d, 1) + limb(right, 1) + sub_carry_0(left, right) == limb(left, 1) + LIMB
                * sub_carry_1(left, right)
            &&& limb(d, 2) + sub_carry_1(left, right) == 1
            &&& limb(d, 3) == 0
            &&& 0 <= sub_carry_0(left, right) <= 1
            &&& 0 <= sub_carry_1(left, right) <= 1
        }),
{
    let l = LIMB as int;
    let d = left + word() - right;
    lemma_word_limbs(left);
    lemma_word_limbs(right);
    let b0 = num(limb(left, 0) < limb(right, 0));
    let d0 = limb(left, 0) + b0 * l - limb(right, 0);
    let b1 = num(limb(left, 1) < limb(right, 1) + b0);
    let d1 = limb(left, 1) + b1 * l - limb(right, 1) - b0;
    lemma_limbs(d, d0, d1, 1 - b1, 0);
    vstd::arithmetic::div_mod::lemma_fundamental_div_mod_converse(
        limb(d, 0) + limb(right, 0),
        l,
        b0,
        limb(left, 0),
    );
    vstd::arithmetic::div_mod::lemma_fundamental_div_mod_converse(
        limb(d, 1) + limb(right, 1) + b0,
        l,
        b1,
        limb(left, 1),
    );
}

/// Adding the immediate to the first source register in the low limb: the carry is a bit.
pub proof fn law_address_limb(row: CycleRow)
    requires
        row.circuit_flags.load || row.circuit_flags.store,
    ensures
        ({
            let carry = (limb(read_value(row.rs1_read), 0) + (row.imm as int) % (LIMB as int)) / (
            LIMB as int);
            &&& limb(read_value(row.rs1_read), 0) + (row.imm as int) % (LIMB as int) == limb(
                accessed_address(row),
                0,
            ) + LIMB * carry
            &&& 0 <= carry <= 1
        }),
{
    let l = LIMB as int;
    let rs1 = read_value(row.rs1_read);
    let imm = row.imm as int;
    let x = rs1 + imm;
    vstd::arithmetic::div_mod::lemma_mod_mod(x, l, l);
    assert(word() == l * l);
    vstd::arithmetic::div_mod::lemma_add_mod_noop(rs1, imm, l);
    assert((x % word()) % l == x % l);
}

/// The variables that hold a sign or a carry of one bit.
pub open spec fn aux_vars() -> Seq<int> {
    seq![
        LEFT_SIGN as int,
        RIGHT_SIGN as int,
        PRODUCT_SIGN as int,
        SIGN_PROD as int,
        ADD_C0 as int,
        SUB_C0 as int,
        SUB_C1 as int,
        RAM_ADDR_C0 as int,
    ]
}

/// The sign and carry variables of every cycle are bits.
pub proof fn law_aux_boolean(trace: Seq<CycleRow>, t: int, pcs: Seq<u64>, k: int)
    requires
        0 <= t < trace.len(),
        row_fits(trace[t]),
        0 <= k < aux_vars().len(),
    ensures
        0 <= cycle_cell(trace, t, pcs, aux_vars()[k]) <= 1,
{
    let row = trace[t];
    let left = left_input(row);
    let right = right_input(row) % word();
    reveal(product_cell);
    reveal(operand_cell);
    reveal(state_cell);
    law_sum_limbs(left, right);
    law_difference_limbs(left, right);
    if row.circuit_flags.load || row.circuit_flags.store {
        law_address_limb(row);
    }
}

/// The columns of the constraint system of a whole trace.
#[derive(Debug)]
pub struct R1csWitness<F> {
    /// The logarithm of the padded number of cycles.
    pub log_num_cycles: usize,
    /// The padded number of variables of a cycle.
    pub num_vars_padded: usize,
    /// The padded number of constraints of a cycle.
    pub num_cons_padded: usize,
    /// The assignment, cycle-major.
    pub z: Vec<F>,
    /// The matrix-vector products, cycle-major.
    pub az: Vec<F>,
    pub bz: Vec<F>,
    pub cz: Vec<F>,
}

/// The assignments of the cycles, padded with zeros.
pub open spec fn padded_z<F: Field>(
    per_cycle: Seq<Seq<F>>,
    num_vars: int,
    cycles: nat,
    vars: nat,
) -> Seq<F> {
    Seq::new(
        cycles * vars,
        |y: int|
            if y / (vars as int) < per_cycle.len() && y % (vars as int) < num_vars {
                per_cycle[y / (vars as int)][y % (vars as int)]
            } else {
                F::of_int(0)
            },
    )
}

/// The row values of one matrix over the cycles, padded with zeros.
pub open spec fn padded_product<F: Field>(
    m: Seq<Row<F>>,
    per_cycle: Seq<Seq<F>>,
    cycles: nat,
    cons: nat,
) -> Seq<F> {
    Seq::new(
        cycles * cons,
        |x: int|
            if x / (cons as int) < per_cycle.len() {
                matrices::value_at(m, x % (cons as int), per_cycle[x / (cons as int)])
            } else {
                F::of_int(0)
            },
    )
}

fn pad_assignments<F: Field>(
    per_cycle_z: &Vec<Vec<F>>,
    num_vars: usize,
    cycles: usize,
    vars: usize,
) -> (r:
    Vec<F>)
    requires
        forall|c: int| 0 <= c < per_cycle_z@.len() ==> (#[trigger] per_cycle_z@[c])@.len() == num_vars,
        cycles * vars <= usize::MAX,
    ensures
        r@ == padded_z(poly::contents(per_cycle_z@), num_vars as int, cycles as nat, vars as nat),
{
    let ghost per = poly::contents(per_cycle_z@);
    let ghost whole = padded_z(per, num_vars as int, cycles as nat, vars as nat);
    let mut out: Vec<F> = Vec::new();
    assert(0 * vars == 0) by (nonlinear_arith);
    assert(out@ =~= whole.take(0));
    for c in 0..cycles
        invariant
            per == poly::contents(per_cycle_z@),
            forall|c: int|
                0 <= c < per_cycle_z@.len() ==> (#[trigger] per_cycle_z@[c])@.len() == num_vars,
            whole == padded_z(per, num_vars as int, cycles as nat, vars as nat),
            out@ == whole.take(c * vars),
    {
        proof {
            poly::lemma_row_bound(c as int, cycles as int, vars as int);
        }
        for v in 0..vars
            invariant
                c < cycles,
                per == poly::contents(per_cycle_z@),
                forall|c: int|
                    0 <= c < per_cycle_z@.len() ==> (#[trigger] per_cycle_z@[c])@.len()
                        == num_vars,
                whole == padded_z(per, num_vars as int, cycles as nat, vars as nat),
                0 <= c * vars,
                c * vars + vars <= whole.len(),
                out@ == whole.take(c * vars + v),
        {
            proof {
                poly::lemma_block_index(c as int, vars as int, v as int);
            }
            if c < per_cycle_z.len() && v < num_vars {
                assert(per[c as int] == per_cycle_z@[c as int]@);
                out.push(per_cycle_z[c][v]);
            } else {
                out.push(field::zero());
            }
            assert(out@ =~= whole.take(c * vars + v + 1));
        }
        assert((c + 1) * vars == c * vars + vars) by (nonlinear_arith);
    }
    assert(out@ =~= whole);
    out
}

fn apply_matrix<F: Field>(
    m: &Vec<Vec<(usize, F)>>,
    per_cycle_z: &Vec<Vec<F>>,
    cycles: usize,
    cons: usize,
    Ghost(num_vars): Ghost<nat>,
) -> (r: Vec<F>)
    requires
        matrices::rows_read(matrices::rows(m@), num_vars),
        forall|c: int| 0 <= c < per_cycle_z@.len() ==> (#[trigger] per_cycle_z@[c])@.len() == num_vars,
        cycles * cons <= usize::MAX,
    ensures
        r@ == padded_product(
            matrices::rows(m@),
            poly::contents(per_cycle_z@),
            cycles as nat,
            cons as nat,
        ),
{
    let ghost per = poly::contents(per_cycle_z@);
    let ghost ms = matrices::rows(m@);
    let ghost whole = padded_product(ms, per, cycles as nat, cons as nat);
    let mut out: Vec<F> = Vec::new();
    assert(0 * cons == 0) by (nonlinear_arith);
    assert(out@ =~= whole.take(0));
    for c in 0..cycles
        invariant
            per == poly::contents(per_cycle_z@),
            ms == matrices::rows(m@),
            matrices::rows_read(ms, num_vars),
            forall|c: int|
                0 <= c < per_cycle_z@.len() ==> (#[trigger] per_cycle_z@[c])@.len() == num_vars,
            whole == padded_product(ms, per, cycles as nat, cons as nat),
            out@ == whole.take(c * cons),
    {
        proof {
            poly::lemma_row_bound(c as int, cycles as int, cons as int);
        }
        for k in 0..cons
            invariant
                c < cycles,
                per == poly::contents(per_cycle_z@),
                ms == matrices::rows(m@),
                matrices::rows_read(ms, num_vars),
                forall|c: int|
                    0 <= c < per_cycle_z@.len() ==> (#[trigger] per_cycle_z@[c])@.len()
                        == num_vars,
                whole == padded_product(ms, per, cycles as nat, cons as nat),
                0 <= c * cons,
                c * cons + cons <= whole.len(),
                out@ == whole.take(c * cons + k),
        {
            proof {
                poly::lemma_block_index(c as int, cons as int, k as int);
            }
            if c < per_cycle_z.len() && k < m.len() {
                assert(per[c as int] == per_cycle_z@[c as int]@);
                assert(ms[k as int] == m@[k as int]@);
                assert forall|j: int| 0 <= j < m@[k as int]@.len() implies (#[trigger] m@[k as int]@[j]).0
                    < num_vars by {
                    assert(ms[k as int][j].0 < num_vars);
                }
                out.push(matrices::row_dot(&m[k], &per_cycle_z[c]));
            } else {
                out.push(field::zero());
            }
            assert(out@ =~= whole.take(c * cons + k + 1));
        }
        assert((c + 1) * cons == c * cons + cons) by (nonlinear_arith);
    }
    assert(out@ =~= whole);
    out
}

impl<F: Field> R1csWitness<F> {
    /// The columns of the given assignments under the given constraints.
    pub open spec fn materializes(self, m: ConstraintMatrices<F>, per_cycle: Seq<Seq<F>>) -> bool {
        let cycles = bits::cover(per_cycle.len());
        let vars = bits::cover(m.num_vars as nat);
        let cons = bits::cover(m.num_constraints as nat);
        &&& self.log_num_cycles == bits::ceil_log2(per_cycle.len())
        &&& self.num_vars_padded == vars
        &&& self.num_cons_padded == cons
        &&& self.z@ == padded_z(per_cycle, m.num_vars as int, cycles, vars)
        &&& self.az@ == padded_product(m.a_rows(), per_cycle, cycles, cons)
        &&& self.bz@ == padded_product(m.b_rows(), per_cycle, cycles, cons)
        &&& self.cz@ == padded_product(m.c_rows(), per_cycle, cycles, cons)
    }

    /// The product of the first two columns is the third, as far as all three reach.
    pub open spec fn satisfied(self) -> bool {
        forall|x: int|
            0 <= x < self.az@.len() && x < self.bz@.len() && x < self.cz@.len()
                ==> #[trigger] self.cz@[x] == self.az@[x].times(self.bz@[x])
    }

    /// The columns have the sizes of the constraint system with the given key.
    pub open spec fn fits(self, key: R1csKey<F>) -> bool {
        &&& key.wf()
        &&& self.log_num_cycles == key.log_cycles
        &&& self.num_vars_padded == key.num_vars_padded
        &&& self.num_cons_padded == key.num_constraints_padded
        &&& self.z@.len() == pow2(key.col_vars())
        &&& self.az@.len() == pow2(key.row_vars())
        &&& self.bz@.len() == pow2(key.row_vars())
        &&& self.cz@.len() == pow2(key.row_vars())
    }

    /// The columns are those of the constraint system with the given key.
    pub open spec fn belongs_to(self, key: R1csKey<F>) -> bool {
        &&& self.fits(key)
        &&& self.az@ == key.column_of(key.matrices.a_rows(), self.z@)
        &&& self.bz@ == key.column_of(key.matrices.b_rows(), self.z@)
        &&& self.cz@ == key.column_of(key.matrices.c_rows(), self.z@)
    }

    /// The sign and carry columns.
    pub open spec fn aux_columns(self) -> Seq<Seq<F>> {
        Seq::new(
            aux_vars().len(),
            |k: int|
                Seq::new(
                    pow2(self.log_num_cycles as nat),
                    |c: int| self.z@[c * self.num_vars_padded + aux_vars()[k]],
                ),
        )
    }

    /// The columns of the given assignments under the given constraints.
    pub fn materialize(m: &ConstraintMatrices<F>, per_cycle_z: &Vec<Vec<F>>) -> (r: Self)
        requires
            m.wf(),
            forall|c: int|
                0 <= c < per_cycle_z@.len() ==> (#[trigger] per_cycle_z@[c])@.len() == m.num_vars,
            bits::cover(per_cycle_z@.len()) * bits::cover(m.num_vars as nat) <= usize::MAX,
            bits::cover(per_cycle_z@.len()) * bits::cover(m.num_constraints as nat) <= usize::MAX,
        ensures
            r.materializes(*m, poly::contents(per_cycle_z@)),
    {
        let log_num_cycles: usize = bits::log2_ceil(per_cycle_z.len());
        let log_vars: usize = bits::log2_ceil(m.num_vars);
        let log_cons: usize = bits::log2_ceil(m.num_constraints);
        proof {
            vstd::arithmetic::power2::lemma_pow2_pos(log_num_cycles as nat);
            vstd::arithmetic::power2::lemma_pow2_pos(log_vars as nat);
            vstd::arithmetic::power2::lemma_pow2_pos(log_cons as nat);
            poly::lemma_factors(pow2(log_num_cycles as nat), pow2(log_vars as nat));
            poly::lemma_factors(pow2(log_num_cycles as nat), pow2(log_cons as nat));
        }
        let cycles: usize = poly::power_of_two(log_num_cycles);
        let vars: usize = poly::power_of_two(log_vars);
        let cons: usize = poly::power_of_two(log_cons);
        let ghost n = m.num_vars as nat;
        R1csWitness {
            log_num_cycles,
            num_vars_padded: vars,
            num_cons_padded: cons,
            z: pad_assignments(per_cycle_z, m.num_vars, cycles, vars),
            az: apply_matrix(&m.a, per_cycle_z, cycles, cons, Ghost(n)),
            bz: apply_matrix(&m.b, per_cycle_z, cycles, cons, Ghost(n)),
            cz: apply_matrix(&m.c, per_cycle_z, cycles, cons, Ghost(n)),
        }
    }

    /// Whether the product of the first two columns is the third, as far as all three reach.
    pub fn is_satisfied(&self) -> (r: bool)
        ensures
            r == self.satisfied(),
    {
        let mut len: usize = self.az.len();
        if self.bz.len() < len {
            len = self.bz.len();
        }
        if self.cz.len() < len {
            len = self.cz.len();
        }
        for x in 0..len
            invariant
                len <= self.az@.len(),
                len <= self.bz@.len(),
                len <= self.cz@.len(),
                forall|i: int|
                    0 <= i < x ==> #[trigger] self.cz@[i] == self.az@[i].times(self.bz@[i]),
        {
            if !self.cz[x].same(self.az[x].mul(self.bz[x])) {
                assert(self.cz@[x as int] != self.az@[x as int].times(self.bz@[x as int]));
                return false;
            }
        }
        true
    }

    /// The number of row variables.
    pub fn num_row_vars(&self) -> (r: usize)
        requires
            self.log_num_cycles + bits::low_zeros(self.num_cons_padded as nat) <= usize::MAX,
        ensures
            r == self.log_num_cycles + bits::low_zeros(self.num_cons_padded as nat),
    {
        self.log_num_cycles + bits::trailing_zeros(self.num_cons_padded)
    }

    /// The sign and carry columns, which hold only bits.
    pub fn boolean_aux_columns(&self) -> (r: Vec<Vec<F>>)
        requires
            self.z@.len() == pow2(self.log_num_cycles as nat) * self.num_vars_padded,
            self.num_vars_padded >= NUM_VARS,
        ensures
            poly::contents(r@) == self.aux_columns(),
    {
        let vars: [usize; 8] = [
            LEFT_SIGN,
            RIGHT_SIGN,
            PRODUCT_SIGN,
            SIGN_PROD,
            ADD_C0,
            SUB_C0,
            SUB_C1,
            RAM_ADDR_C0,
        ];
        let len: usize = self.z.len();
        proof {
            vstd::arithmetic::power2::lemma_pow2_pos(self.log_num_cycles as nat);
            poly::lemma_factors(
                pow2(self.log_num_cycles as nat),
                self.num_vars_padded as nat,
            );
        }
        let cycles: usize = poly::power_of_two(self.log_num_cycles);
        let mut out: Vec<Vec<F>> = Vec::new();
        for k in 0..8usize
            invariant
                vars@.len() == 8,
                forall|i: int| 0 <= i < 8 ==> #[trigger] vars@[i] == aux_vars()[i],
                cycles == pow2(self.log_num_cycles as nat),
                len == self.z@.len(),
                self.z@.len() == cycles * self.num_vars_padded,
                self.num_vars_padded >= NUM_VARS,
                out@.len() == k,
                forall|i: int| 0 <= i < k ==> (#[trigger] out@[i])@ == self.aux_columns()[i],
        {
            let var: usize = vars[k];
            let mut column: Vec<F> = Vec::new();
            for c in 0..cycles
                invariant
                    k < 8,
                    var == aux_vars()[k as int],
                    var < NUM_VARS,
                    cycles == pow2(self.log_num_cycles as nat),
                    len == self.z@.len(),
                    self.z@.len() == cycles * self.num_vars_padded,
                    self.num_vars_padded >= NUM_VARS,
                    column@ == self.aux_columns()[k as int].take(c as int),
            {
                proof {
                    poly::lemma_row_bound(
                        c as int,
                        cycles as int,
                        self.num_vars_padded as int,
                    );
                }
                column.push(self.z[c * self.num_vars_padded + var]);
                assert(column@ =~= self.aux_columns()[k as int].take(c + 1));
            }
            assert(column@ =~= self.aux_columns()[k as int]);
            out.push(column);
        }
        assert(poly::contents(out@) =~= self.aux_columns());
        out
    }
}

proof fn lemma_row_congruent<F: Field>(row: Row<F>, a: Seq<F>, b: Seq<F>, n: nat)
    requires
        forall|j: int| 0 <= j < row.len() ==> (#[trigger] row[j]).0 < n,
        forall|v: int| 0 <= v < n ==> #[trigger] a[v] == b[v],
    ensures
        matrices::row_value(row, a) == matrices::row_value(row, b),
{
    let f = |j: int| row[j].1.times(a[row[j].0 as int]);
    let g = |j: int| row[j].1.times(b[row[j].0 as int]);
    assert forall|j: int| 0 <= j < row.len() implies #[trigger] f(j) == g(j) by {
        assert(row[j].0 < n);
        assert(a[row[j].0 as int] == b[row[j].0 as int]);
    }
    sums::lemma_sum_ext(row.len() as int, f, g);
}

proof fn lemma_row_of_zeros<F: Field>(row: Row<F>, a: Seq<F>, n: nat)
    requires
        forall|j: int| 0 <= j < row.len() ==> (#[trigger] row[j]).0 < n,
        forall|v: int| 0 <= v < n ==> #[trigger] a[v] == F::of_int(0),
    ensures
        matrices::row_value(row, a) == F::of_int(0),
{
    let f = |j: int| row[j].1.times(a[row[j].0 as int]);
    assert forall|j: int| 0 <= j < row.len() implies #[trigger] f(j) == F::of_int(0) by {
        assert(row[j].0 < n);
        assert(a[row[j].0 as int] == F::of_int(0));
        F::law_times_zero(row[j].1);
    }
    sums::lemma_sum_zero(row.len() as int, f);
}

proof fn lemma_product_column<F: Field>(
    m: Seq<Row<F>>,
    per_cycle: Seq<Seq<F>>,
    num_vars: nat,
    cycles: nat,
    cons: nat,
    vars: nat,
)
    requires
        matrices::rows_read(m, num_vars),
        forall|c: int| 0 <= c < per_cycle.len() ==> (#[trigger] per_cycle[c]).len() == num_vars,
        num_vars <= vars,
        vars > 0,
        cons > 0,
    ensures
        padded_product(m, per_cycle, cycles, cons) == key::matrix_column(
            m,
            padded_z(per_cycle, num_vars as int, cycles, vars),
            cycles,
            cons,
            vars,
        ),
{
    let z = padded_z(per_cycle, num_vars as int, cycles, vars);
    let lhs = padded_product(m, per_cycle, cycles, cons);
    let rhs = key::matrix_column(m, z, cycles, cons, vars);
    assert forall|x: int| 0 <= x < cycles * cons implies #[trigger] lhs[x] == rhs[x] by {
        let c = x / (cons as int);
        let con = x % (cons as int);
        poly::lemma_quotient_in_range(x, cycles as int, cons as int);
        let zc = key::block(z, c, vars as int);
        assert forall|v: int| 0 <= v < num_vars implies #[trigger] zc[v] == (if c
            < per_cycle.len() {
            per_cycle[c][v]
        } else {
            F::of_int(0)
        }) by {
            poly::lemma_block_index(c, vars as int, v);
            poly::lemma_row_bound(c, cycles as int, vars as int);
        }
        if con < m.len() {
            let row = m[con];
            assert forall|j: int| 0 <= j < row.len() implies (#[trigger] row[j]).0 < num_vars by {
                assert(m[con][j].0 < num_vars);
            }
            if c < per_cycle.len() {
                lemma_row_congruent(row, per_cycle[c], zc, num_vars);
            } else {
                lemma_row_of_zeros(row, zc, num_vars);
            }
        }
    }
    assert(lhs =~= rhs);
}

/// The materialised columns are the matrix-vector products of the whole constraint system.
pub proof fn law_columns<F: Field>(w: R1csWitness<F>, key: R1csKey<F>, per_cycle: Seq<Seq<F>>)
    requires
        key.wf(),
        key.log_cycles == bits::ceil_log2(per_cycle.len()),
        key.num_vars_padded == bits::cover(key.matrices.num_vars as nat),
        key.num_constraints_padded == bits::cover(key.matrices.num_constraints as nat),
        w.materializes(key.matrices, per_cycle),
        forall|c: int|
            0 <= c < per_cycle.len() ==> (#[trigger] per_cycle[c]).len() == key.matrices.num_vars,
    ensures
        w.belongs_to(key),
{
    let n = key.matrices.num_vars as nat;
    let cycles = key.num_cycles as nat;
    let cons = key.num_constraints_padded as nat;
    let vars = key.num_vars_padded as nat;
    poly::lemma_pow2_concat(key.log_cycles as nat, key.log_vars as nat);
    poly::lemma_pow2_concat(key.log_cycles as nat, key.log_constraints as nat);
    vstd::arithmetic::power2::lemma_pow2_pos(key.log_vars as nat);
    vstd::arithmetic::power2::lemma_pow2_pos(key.log_constraints as nat);
    lemma_product_column(key.matrices.a_rows(), per_cycle, n, cycles, cons, vars);
    lemma_product_column(key.matrices.b_rows(), per_cycle, n, cycles, cons, vars);
    lemma_product_column(key.matrices.c_rows(), per_cycle, n, cycles, cons, vars);
}

/// Assignments that satisfy the constraints of every cycle satisfy the whole system, padding
/// included.
pub proof fn law_satisfied<F: Field>(
    w: R1csWitness<F>,
    m: ConstraintMatrices<F>,
    per_cycle: Seq<Seq<F>>,
)
    requires
        m.wf(),
        w.materializes(m, per_cycle),
        forall|c: int| 0 <= c < per_cycle.len() ==> m.satisfied_by(#[trigger] per_cycle[c]),
    ensures
        w.satisfied(),
{
    let cons = w.num_cons_padded as int;
    assert forall|x: int| 0 <= x < w.az@.len() implies #[trigger] w.cz@[x] == w.az@[x].times(
        w.bz@[x],
    ) by {
        let c = x / cons;
        let con = x % cons;
        vstd::arithmetic::power2::lemma_pow2_pos(bits::ceil_log2(m.num_constraints as nat));
        poly::lemma_quotient_in_range(
            x,
            bits::cover(per_cycle.len()) as int,
            cons,
        );
        F::law_times_zero(F::of_int(0));
        if c < per_cycle.len() && con < m.num_constraints {
            assert(m.satisfied_by(per_cycle[c]));
            assert(m.a_rows()[con] == m.a@[con]@);
        }
    }
}

/// The sign and carry columns of the assignments of a trace hold only bits.
pub proof fn law_aux_columns<F: Field>(
    w: R1csWitness<F>,
    m: ConstraintMatrices<F>,
    trace: Seq<CycleRow>,
    pcs: Seq<u64>,
    k: int,
    c: int,
)
    requires
        m.num_vars == NUM_VARS,
        w.materializes(m, Seq::new(trace.len(), |t: int| assignment::<F>(trace, t, pcs))),
        forall|t: int| 0 <= t < trace.len() ==> row_fits(#[trigger] trace[t]),
        0 <= k < aux_vars().len(),
        0 <= c < pow2(w.log_num_cycles as nat),
    ensures
        w.aux_columns()[k][c] == F::of_int(0) || w.aux_columns()[k][c] == F::of_int(1),
{
    let vars = w.num_vars_padded as int;
    let var = aux_vars()[k];
    bits::law_cover(NUM_VARS as nat);
    poly::lemma_block_index(c, vars, var);
    poly::lemma_row_bound(c, pow2(w.log_num_cycles as nat) as int, vars);
    if c < trace.len() {
        assert(row_fits(trace[c]));
        law_aux_boolean(trace, c, pcs, k);
    }
}

/// The columns are laid out cycle by cycle: the assignment of a cycle stands in its block, one entry
/// per variable, and the row values in theirs, one entry per constraint, each the sum of the
/// coefficients times the variables of that cycle. Everything behind is zero.
pub proof fn law_layout<F: Field>(
    w: R1csWitness<F>,
    m: ConstraintMatrices<F>,
    per_cycle: Seq<Seq<F>>,
    c: int,
    v: int,
    k: int,
)
    requires
        m.wf(),
        w.materializes(m, per_cycle),
        0 <= c < pow2(w.log_num_cycles as nat),
        0 <= v < w.num_vars_padded,
        0 <= k < w.num_cons_padded,
    ensures
        ({
            let vars = w.num_vars_padded as int;
            let cons = w.num_cons_padded as int;
            let zero = F::of_int(0);
            let dot = |row: Seq<(usize, F)>|
                sums::sum(
                    row.len() as int,
                    |j: int| row[j].1.times(per_cycle[c][row[j].0 as int]),
                );
            let traced = c < per_cycle.len();
            &&& per_cycle.len() <= pow2(w.log_num_cycles as nat)
            &&& m.num_vars <= vars
            &&& m.num_constraints <= cons
            &&& w.z@.len() == pow2(w.log_num_cycles as nat) * vars
            &&& w.az@.len() == pow2(w.log_num_cycles as nat) * cons
            &&& w.bz@.len() == pow2(w.log_num_cycles as nat) * cons
            &&& w.cz@.len() == pow2(w.log_num_cycles as nat) * cons
            &&& w.z@[c * vars + v] == (if traced && v < m.num_vars {
                per_cycle[c][v]
            } else {
                zero
            })
            &&& traced && k < m.num_constraints ==> {
                &&& w.az@[c * cons + k] == dot(m.a@[k]@)
                &&& w.bz@[c * cons + k] == dot(m.b@[k]@)
                &&& w.cz@[c * cons + k] == dot(m.c@[k]@)
            }
            &&& !traced || k >= m.num_constraints ==> {
                &&& w.az@[c * cons + k] == zero
                &&& w.bz@[c * cons + k] == zero
                &&& w.cz@[c * cons + k] == zero
            }
        }),
{
    let vars = w.num_vars_padded as int;
    let cons = w.num_cons_padded as int;
    let cycles = pow2(w.log_num_cycles as nat) as int;
    bits::law_cover(per_cycle.len());
    bits::law_cover(m.num_vars as nat);
    bits::law_cover(m.num_constraints as nat);
    poly::lemma_block_index(c, vars, v);
    poly::lemma_cell_in_range(c, v, cycles, vars);
    poly::lemma_block_index(c, cons, k);
    poly::lemma_cell_in_range(c, k, cycles, cons);
}

} // verus!
