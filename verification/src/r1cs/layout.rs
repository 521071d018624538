//! The variables of one cycle.
//!
//! Words are split into 32-bit limbs, the low limb first.

use vstd::prelude::*;

verus! {

/// The radix of a limb.
pub const LIMB: u64 = 0x1_0000_0000;

/// The number of variables of one cycle.
pub const NUM_VARS: usize = 70;

/// The constant one.
pub const CONST_ONE: usize = 0;

/// Whether the next cycle does nothing.
pub const NEXT_IS_NOOP: usize = 1;

/// The two limbs of the left input.
pub const LEFT: usize = 2;

/// The sign of the left input.
pub const LEFT_SIGN: usize = 4;

/// The two limbs of the magnitude of the right input.
pub const RIGHT_MAG: usize = 5;

/// The sign of the right input.
pub const RIGHT_SIGN: usize = 7;

/// The four limbs of the product of the magnitudes.
pub const PRODUCT: usize = 8;

/// The sign of the product.
pub const PRODUCT_SIGN: usize = 12;

/// The four limb products.
pub const Q: usize = 13;

/// The carry out of the first product limb.
pub const MUL_C0: usize = 17;

/// The carry out of the second product limb.
pub const MUL_C1: usize = 18;

/// The carry out of the third product limb.
pub const MUL_C2: usize = 19;

/// The product of the input signs.
pub const SIGN_PROD: usize = 20;

/// The low carry of the sum.
pub const ADD_C0: usize = 21;

/// The four limbs of the right lookup operand.
pub const RLO: usize = 22;

/// The low carry of the difference.
pub const SUB_C0: usize = 26;

/// The high carry of the difference.
pub const SUB_C1: usize = 27;

/// The two limbs of the lookup output.
pub const LOOKUP_OUTPUT: usize = 28;

/// The two limbs of the left lookup operand.
pub const LEFT_LOOKUP: usize = 30;

/// The two limbs of the first source register.
pub const RS1: usize = 32;

/// The two limbs of the second source register.
pub const RS2: usize = 34;

/// The two limbs of the value written to the destination register.
pub const RD_WRITE: usize = 36;

/// The two limbs of the value read from memory.
pub const RAM_READ: usize = 38;

/// The two limbs of the value written to memory.
pub const RAM_WRITE: usize = 40;

/// The two limbs of the accessed address.
pub const RAM_ADDRESS: usize = 42;

/// The low carry of the accessed address.
pub const RAM_ADDR_C0: usize = 44;

/// The index of the bytecode row.
pub const PC: usize = 45;

/// The program counter.
pub const UNEXPANDED_PC: usize = 46;

/// The two limbs of the immediate, the high one signed.
pub const IMM: usize = 47;

/// The first of the circuit flags, in the order of their bits.
pub const F_ADD: usize = 49;

/// The jump flag.
pub const F_JUMP: usize = 54;

/// The flag that keeps the program counter.
pub const F_DO_NOT_UPDATE_PC: usize = 58;

/// Whether the instruction branches.
pub const BRANCH: usize = 63;

/// The lookup output of a branch.
pub const SHOULD_BRANCH: usize = 64;

/// The index of the next bytecode row.
pub const NEXT_PC: usize = 65;

/// The next program counter.
pub const NEXT_UNEXPANDED_PC: usize = 66;

/// Whether the next cycle is in an expanded sequence.
pub const NEXT_IS_VIRTUAL: usize = 67;

/// Whether the next cycle starts an expanded sequence.
pub const NEXT_IS_FIRST_IN_SEQUENCE: usize = 68;

/// Whether the cycle jumps to a cycle that does something.
pub const SHOULD_JUMP: usize = 69;

} // verus!
