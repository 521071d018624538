//! Rows of an execution trace and of the bytecode, as plain values.

use vstd::prelude::*;

verus! {

/// The number of circuit flags.
pub const NUM_CIRCUIT_FLAGS: usize = 14;

/// The number of lookup tables.
pub const NUM_LOOKUP_TABLES: usize = 40;

/// The flags that select the constraints of an instruction.
#[derive(Clone, Copy, Debug)]
pub struct CircuitFlagSet {
    /// The lookup operand is the sum of the inputs.
    pub add_operands: bool,
    /// The lookup operand is the difference of the inputs.
    pub subtract_operands: bool,
    /// The lookup operand is the product of the inputs.
    pub multiply_operands: bool,
    /// The instruction loads from memory.
    pub load: bool,
    /// The instruction stores to memory.
    pub store: bool,
    /// The instruction jumps.
    pub jump: bool,
    /// The lookup output is written to the destination register.
    pub write_lookup_output_to_rd: bool,
    /// The instruction belongs to an expanded sequence.
    pub virtual_instruction: bool,
    /// The lookup output must be one.
    pub assert_flag: bool,
    /// The program counter stays.
    pub do_not_update_unexpanded_pc: bool,
    /// The lookup operand is advice.
    pub advice: bool,
    /// The instruction is two bytes wide.
    pub is_compressed: bool,
    /// The instruction is the first of an expanded sequence.
    pub is_first_in_sequence: bool,
    /// The instruction is the last of an expanded sequence.
    pub is_last_in_sequence: bool,
}

impl CircuitFlagSet {
    /// The flags in the order of their bits.
    pub open spec fn bits(self) -> Seq<bool> {
        seq![
            self.add_operands,
            self.subtract_operands,
            self.multiply_operands,
            self.load,
            self.store,
            self.jump,
            self.write_lookup_output_to_rd,
            self.virtual_instruction,
            self.assert_flag,
            self.do_not_update_unexpanded_pc,
            self.advice,
            self.is_compressed,
            self.is_first_in_sequence,
            self.is_last_in_sequence,
        ]
    }

    /// No flag set.
    pub fn none() -> (r: Self)
        ensures
            forall|t: int| 0 <= t < NUM_CIRCUIT_FLAGS ==> !#[trigger] r.bits()[t],
    {
        CircuitFlagSet {
            add_operands: false,
            subtract_operands: false,
            multiply_operands: false,
            load: false,
            store: false,
            jump: false,
            write_lookup_output_to_rd: false,
            virtual_instruction: false,
            assert_flag: false,
            do_not_update_unexpanded_pc: false,
            advice: false,
            is_compressed: false,
            is_first_in_sequence: false,
            is_last_in_sequence: false,
        }
    }

    /// The flag at a bit position.
    pub fn bit(&self, t: usize) -> (r: bool)
        requires
            t < NUM_CIRCUIT_FLAGS,
        ensures
            r == self.bits()[t as int],
    {
        if t == 0 {
            self.add_operands
        } else if t == 1 {
            self.subtract_operands
        } else if t == 2 {
            self.multiply_operands
        } else if t == 3 {
            self.load
        } else if t == 4 {
            self.store
        } else if t == 5 {
            self.jump
        } else if t == 6 {
            self.write_lookup_output_to_rd
        } else if t == 7 {
            self.virtual_instruction
        } else if t == 8 {
            self.assert_flag
        } else if t == 9 {
            self.do_not_update_unexpanded_pc
        } else if t == 10 {
            self.advice
        } else if t == 11 {
            self.is_compressed
        } else if t == 12 {
            self.is_first_in_sequence
        } else {
            self.is_last_in_sequence
        }
    }

    /// The operands are looked up as interleaved bits, not combined into one number.
    pub open spec fn interleaved(self) -> bool {
        !self.add_operands && !self.subtract_operands && !self.multiply_operands && !self.advice
    }

    /// The operands are looked up as interleaved bits, not combined into one number.
    pub fn is_interleaved_operands(&self) -> (r: bool)
        ensures
            r == self.interleaved(),
    {
        !self.add_operands && !self.subtract_operands && !self.multiply_operands && !self.advice
    }
}

/// The flags that select the inputs of an instruction.
#[derive(Clone, Copy, Debug)]
pub struct InstructionFlagSet {
    /// The left input is the program counter.
    pub left_operand_is_pc: bool,
    /// The right input is the immediate.
    pub right_operand_is_imm: bool,
    /// The left input is the first source register.
    pub left_operand_is_rs1_value: bool,
    /// The right input is the second source register.
    pub right_operand_is_rs2_value: bool,
    /// The instruction branches.
    pub branch: bool,
    /// The instruction does nothing.
    pub is_noop: bool,
}

impl InstructionFlagSet {
    /// Every flag is false.
    pub open spec fn unset(self) -> bool {
        &&& !self.left_operand_is_pc
        &&& !self.right_operand_is_imm
        &&& !self.left_operand_is_rs1_value
        &&& !self.right_operand_is_rs2_value
        &&& !self.branch
        &&& !self.is_noop
    }

    /// No flag set.
    pub fn none() -> (r: Self)
        ensures
            r.unset(),
    {
        InstructionFlagSet {
            left_operand_is_pc: false,
            right_operand_is_imm: false,
            left_operand_is_rs1_value: false,
            right_operand_is_rs2_value: false,
            branch: false,
            is_noop: false,
        }
    }
}

/// One executed cycle.
#[derive(Clone, Copy, Debug)]
pub struct CycleRow {
    pub is_noop: bool,
    pub unexpanded_pc: u64,
    /// The first source register and the value read.
    pub rs1_read: Option<(u8, u64)>,
    /// The second source register and the value read.
    pub rs2_read: Option<(u8, u64)>,
    /// The destination register and its value before and after.
    pub rd_write: Option<(u8, u64, u64)>,
    pub ram_access_address: Option<u64>,
    pub ram_read_value: Option<u64>,
    pub ram_write_value: Option<u64>,
    pub imm: i128,
    pub circuit_flags: CircuitFlagSet,
    pub instruction_flags: InstructionFlagSet,
    pub lookup_index: u128,
    pub lookup_output: u64,
    /// The lookup table read, if any.
    pub lookup_table: Option<usize>,
}

impl CycleRow {
    /// A cycle that does nothing at the given program counter.
    pub fn noop_at(unexpanded_pc: u64) -> (r: Self)
        ensures
            r.is_noop,
            r.unexpanded_pc == unexpanded_pc,
            r.rs1_read is None,
            r.rs2_read is None,
            r.rd_write is None,
            r.ram_access_address is None,
            r.ram_read_value is None,
            r.ram_write_value is None,
            r.imm == 0,
            r.lookup_index == 0,
            r.lookup_output == 0,
            r.lookup_table is None,
            forall|t: int| 0 <= t < NUM_CIRCUIT_FLAGS ==> !#[trigger] r.circuit_flags.bits()[t],
            r.instruction_flags.unset(),
    {
        CycleRow {
            is_noop: true,
            unexpanded_pc,
            rs1_read: None,
            rs2_read: None,
            rd_write: None,
            ram_access_address: None,
            ram_read_value: None,
            ram_write_value: None,
            imm: 0,
            circuit_flags: CircuitFlagSet::none(),
            instruction_flags: InstructionFlagSet::none(),
            lookup_index: 0,
            lookup_output: 0,
            lookup_table: None,
        }
    }
}

/// One bytecode row.
#[derive(Clone, Copy, Debug)]
pub struct Instruction {
    pub address: u64,
    pub imm: i128,
    pub rd: Option<u8>,
    pub rs1: Option<u8>,
    pub rs2: Option<u8>,
    pub circuit_flags: CircuitFlagSet,
    pub instruction_flags: InstructionFlagSet,
    /// The lookup table read, if any.
    pub lookup_table: Option<usize>,
}

} // verus!
