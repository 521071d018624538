//! The batched read check of the instruction lookups: all claims share one cycle point.

use crate::field::Field;
use crate::framework::accumulator::SumcheckId;
use crate::framework::sums;
use crate::framework::transcript::Challenge;
use crate::zkvm::shout_read_raf;
use crate::zkvm::shout_read_raf::{OneHotReadRafParams, RaFamily, ReadModel, ReadRafStage};
use vstd::prelude::*;

verus! {

/// The batch of the read claims of the instruction lookups, with a fresh challenge.
pub fn instruction_read_raf_params<F: Field, T: Challenge<F>>(
    log_k_chunks: Vec<usize>,
    log_t: usize,
    stages: Vec<ReadRafStage<F>>,
    transcript: &mut T,
) -> (r: OneHotReadRafParams<F>)
    ensures
        r@ == (ReadModel {
            gp: Seq::new(
                stages@.len(),
                |i: int| sums::power(old(transcript).state().next(), i),
            ),
            widths: log_k_chunks@,
            log_t: log_t as nat,
            stages: shout_read_raf::models(stages@),
            family: RaFamily::Instruction,
            id: SumcheckId::InstructionReadRaf,
        }),
        final(transcript).state() == old(transcript).state().squeeze(),
{
    OneHotReadRafParams::new(
        RaFamily::Instruction,
        SumcheckId::InstructionReadRaf,
        log_k_chunks,
        log_t,
        stages,
        transcript,
    )
}

} // verus!
