//! The lookup columns of an execution trace.

use crate::zkvm::trace::CycleRow;
use vstd::prelude::*;

verus! {

/// The lookups of all cycles.
#[derive(Debug)]
pub struct InstructionLookupColumns {
    /// The lookup index of each cycle.
    pub lookup_indices: Vec<u128>,
    /// The lookup table of each cycle, if it reads one.
    pub lookup_table_indices: Vec<Option<usize>>,
    /// Whether the operands of each cycle are interleaved.
    pub is_interleaved: Vec<bool>,
}

/// Collect the lookups of `size` cycles. Cycles behind the trace look up index zero in no table,
/// not interleaved.
pub fn instruction_lookup_columns(trace: &[CycleRow], size: usize) -> (r: InstructionLookupColumns)
    ensures
        r.lookup_indices@ == Seq::new(
            size as nat,
            |j: int|
                if j < trace@.len() {
                    trace@[j].lookup_index
                } else {
                    0u128
                },
        ),
        r.lookup_table_indices@ == Seq::new(
            size as nat,
            |j: int|
                if j < trace@.len() {
                    trace@[j].lookup_table
                } else {
                    None
                },
        ),
        r.is_interleaved@ == Seq::new(
            size as nat,
            |j: int| j < trace@.len() && trace@[j].circuit_flags.interleaved(),
        ),
{
    let mut lookup_indices: Vec<u128> = Vec::new();
    let mut lookup_table_indices: Vec<Option<usize>> = Vec::new();
    let mut is_interleaved: Vec<bool> = Vec::new();
    let ghost idx = |j: int|
        if j < trace@.len() {
            trace@[j].lookup_index
        } else {
            0u128
        };
    let ghost tab = |j: int|
        if j < trace@.len() {
            trace@[j].lookup_table
        } else {
            None
        };
    let ghost inter = |j: int| j < trace@.len() && trace@[j].circuit_flags.interleaved();
    for j in 0..size
        invariant
            idx == (|j: int|
                if j < trace@.len() {
                    trace@[j].lookup_index
                } else {
                    0u128
                }),
            tab == (|j: int|
                if j < trace@.len() {
                    trace@[j].lookup_table
                } else {
                    None
                }),
            inter == (|j: int| j < trace@.len() && trace@[j].circuit_flags.interleaved()),
            lookup_indices@ == Seq::new(j as nat, idx),
            lookup_table_indices@ == Seq::new(j as nat, tab),
            is_interleaved@ == Seq::new(j as nat, inter),
    {
        if j < trace.len() {
            lookup_indices.push(trace[j].lookup_index);
            lookup_table_indices.push(trace[j].lookup_table);
            is_interleaved.push(trace[j].circuit_flags.is_interleaved_operands());
        } else {
            lookup_indices.push(0);
            lookup_table_indices.push(None);
            is_interleaved.push(false);
        }
        assert(lookup_indices@ =~= Seq::new((j + 1) as nat, idx));
        assert(lookup_table_indices@ =~= Seq::new((j + 1) as nat, tab));
        assert(is_interleaved@ =~= Seq::new((j + 1) as nat, inter));
    }
    InstructionLookupColumns { lookup_indices, lookup_table_indices, is_interleaved }
}

} // verus!
