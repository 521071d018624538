//! The lookup tables in the address phase.
//!
//! The phases are fed with prefixes and suffixes, which stand for the entries of the lookup tables:
//! before the chunk at bit `n` is bound, a lookup sees its table at the point made of the first `n`
//! challenges and of the other bits of its index, and afterwards with the chunk's challenges in
//! place of its bits.

use crate::field;
use crate::field::Field;
use crate::framework::poly;
use crate::framework::sums;
use crate::framework::univariate;
use crate::zkvm::instruction_lookups::address_phase::{PhaseState, ShapeModel};
use crate::zkvm::instruction_lookups::address_reduction;
use crate::zkvm::instruction_lookups::address_reduction::Supply;
use crate::zkvm::instruction_lookups::index_bits;
use crate::zkvm::instruction_lookups::lookup_groups::LookupGroup;
use crate::zkvm::instruction_lookups::operand_poly;
use vstd::arithmetic::power2::pow2;
use vstd::prelude::*;

verus! {

/// The multilinear extension of the entries of a table.
pub open spec fn table_at<F: Field>(entries: spec_fn(int) -> u64, point: Seq<F>) -> F {
    poly::mle(Seq::new(pow2(point.len()), |k: int| F::of_int(entries(k) as int)), point)
}

/// What a lookup reads at a point from its table, zero if it reads none.
pub open spec fn read_at<F: Field>(
    tables: spec_fn(usize, int) -> u64,
    table: Option<usize>,
    point: Seq<F>,
) -> F {
    match table {
        Some(t) => table_at(|k: int| tables(t, k), point),
        None => F::of_int(0),
    }
}

/// The point that a lookup has reached after `n` challenges: the challenges, and the other bits of
/// its index, the most significant first.
pub open spec fn reached<F: Field>(r: Seq<F>, index: int, n: int) -> Seq<F> {
    r.take(n) + operand_poly::binary_point::<F>(index, r.len()).skip(n)
}

/// What the prefixes and suffixes of phase `p` give lookup `g`, before and after its chunk is bound,
/// is its table at the points it has reached.
pub open spec fn decomposes<F: Field>(
    s: PhaseState<F>,
    supplies: Seq<Supply<F>>,
    shapes: Seq<ShapeModel<F>>,
    r: Seq<F>,
    tables: spec_fn(usize, int) -> u64,
    p: int,
    g: int,
) -> bool {
    let inp = address_reduction::phase_inputs(s, supplies, shapes, r, p);
    let table = s.groups[g].lookup_table_index;
    let index = s.groups[g].lookup_index as int;
    &&& address_reduction::read_value(inp, None, g) == read_at(
        tables,
        table,
        reached(r, index, 8 * p),
    )
    &&& address_reduction::read_value(inp, Some(address_reduction::phase_point(r, p)), g)
        == read_at(tables, table, reached(r, index, 8 * p + 8))
}

/// Every phase is fed with a decomposition of the tables.
pub open spec fn decomposed<F: Field>(
    s: PhaseState<F>,
    supplies: Seq<Supply<F>>,
    shapes: Seq<ShapeModel<F>>,
    r: Seq<F>,
    tables: spec_fn(usize, int) -> u64,
) -> bool {
    &&& s.log_k >= 8
    &&& supplies.len() == s.log_k / 8
    &&& r.len() == s.log_k
    &&& field::all_valid(r)
    &&& forall|p: int|
        0 <= p < supplies.len() ==> address_reduction::fed(
            #[trigger] address_reduction::after_phases(s, supplies, shapes, r, p),
            address_reduction::phase_inputs(s, supplies, shapes, r, p),
        )
    &&& forall|p: int, g: int|
        0 <= p < supplies.len() && 0 <= g < s.groups.len() ==> #[trigger] decomposes(
            s,
            supplies,
            shapes,
            r,
            tables,
            p,
            g,
        )
}

/// The value of a lookup at a point: its table, and its operands or its index.
pub open spec fn value_at<F: Field>(
    gamma: F,
    tables: spec_fn(usize, int) -> u64,
    group: LookupGroup<F>,
    point: Seq<F>,
) -> F {
    read_at(tables, group.lookup_table_index, point).plus(
        address_reduction::raf_at_point(gamma, point, group.is_interleaved_operands),
    )
}

/// The bits of the index of a lookup, the most significant first.
pub open spec fn index_point<F: Field>(group: LookupGroup<F>, log_k: nat) -> Seq<F> {
    operand_poly::binary_point::<F>(group.lookup_index as int, log_k)
}

/// The sum over the lookups of the weight times the value at the index.
pub open spec fn start_claim<F: Field>(
    s: PhaseState<F>,
    tables: spec_fn(usize, int) -> u64,
) -> F {
    sums::sum(
        s.groups.len() as int,
        |g: int|
            s.groups[g].u_eval_sum.times(
                value_at(s.gamma, tables, s.groups[g], index_point(s.groups[g], s.log_k)),
            ),
    )
}

/// The sum over the lookups of the weight, the equality polynomial at the challenges and the index,
/// and the value at the challenges.
pub open spec fn end_claim<F: Field>(
    s: PhaseState<F>,
    tables: spec_fn(usize, int) -> u64,
    r: Seq<F>,
) -> F {
    sums::sum(
        s.groups.len() as int,
        |g: int|
            s.groups[g].u_eval_sum.times(
                poly::eq_mle(r, index_point(s.groups[g], s.log_k)),
            ).times(value_at(s.gamma, tables, s.groups[g], r)),
    )
}

/// At the bits of an index the extension of a table is the entry.
pub proof fn law_table_at_index<F: Field>(entries: spec_fn(int) -> u64, index: int, n: nat)
    requires
        0 <= index < pow2(n),
    ensures
        table_at(entries, operand_poly::binary_point::<F>(index, n)) == F::of_int(
            entries(index) as int,
        ),
{
    F::law_of_int_valid(entries(index) as int);
    operand_poly::law_mle_binary_point(
        Seq::new(pow2(n), |k: int| F::of_int(entries(k) as int)),
        index,
        n,
    );
}

/// At the bits of an index the operands, or the index, are those of the index.
pub proof fn law_raf_at_index<F: Field>(gamma: F, index: int, interleaved: bool, n: nat)
    requires
        0 <= index < pow2(n),
        n % 2 == 0,
    ensures
        address_reduction::raf_at_point(
            gamma,
            operand_poly::binary_point::<F>(index, n),
            interleaved,
        ) == address_reduction::raf_of_index(gamma, index, interleaved, n),
{
    let m = n / 2;
    poly::lemma_pow2_zero();
    operand_poly::law_strided_bits::<F>(index, n, 0, 2, m);
    operand_poly::law_strided_bits::<F>(index, n, 1, 2, m);
    operand_poly::law_strided_bits::<F>(index, n, 0, 1, n);
    index_bits::lemma_all_bits(index, 0, n);
    assert(index / 1 == index);
}

/// Every phase reads what the tables hold, so what a lookup reads at the end of a phase is what it
/// reads at the start of the next one.
pub proof fn lemma_decomposed_supplies<F: Field>(
    s: PhaseState<F>,
    supplies: Seq<Supply<F>>,
    shapes: Seq<ShapeModel<F>>,
    r: Seq<F>,
    tables: spec_fn(usize, int) -> u64,
)
    requires
        decomposed(s, supplies, shapes, r, tables),
    ensures
        address_reduction::supplied(s, supplies, shapes, r),
{
    assert forall|p: int, g: int|
        0 <= p < supplies.len() - 1 && 0 <= g < s.groups.len() implies
        #[trigger] address_reduction::read_value(
        address_reduction::phase_inputs(s, supplies, shapes, r, p),
        Some(address_reduction::phase_point(r, p)),
        g,
    ) == address_reduction::read_value(
        address_reduction::phase_inputs(s, supplies, shapes, r, p + 1),
        None,
        g,
    ) by {
        assert(decomposes(s, supplies, shapes, r, tables, p, g));
        assert(decomposes(s, supplies, shapes, r, tables, p + 1, g));
        assert(8 * p + 8 == 8 * (p + 1));
    }
}

/// The address rounds with the lookup tables in place of their prefixes and suffixes: run from the
/// sum over the lookups of the weight times the value at the index, a chunk is open in every round,
/// every message adds up to its claim, and the last claim is the sum of the weight, the equality
/// polynomial at the challenges and the index, and the value at the challenges. Both sums carry the
/// scale of the machine.
pub proof fn law_address_rounds<F: Field>(
    s: PhaseState<F>,
    supplies: Seq<Supply<F>>,
    shapes: Seq<ShapeModel<F>>,
    r: Seq<F>,
    tables: spec_fn(usize, int) -> u64,
)
    requires
        address_reduction::fresh(s),
        decomposed(s, supplies, shapes, r, tables),
    ensures
        ({
            let claim = start_claim(s, tables).times(s.scale);
            let (last, end) = address_reduction::rounds(
                s,
                supplies,
                shapes,
                r,
                claim,
                s.log_k as int,
            );
            &&& end == end_claim(s, tables, r).times(s.scale)
            &&& last.challenges == r
            &&& forall|i: int|
                0 <= i < s.log_k ==> ({
                    let (before, c) = #[trigger] address_reduction::rounds(
                        s,
                        supplies,
                        shapes,
                        r,
                        claim,
                        i,
                    );
                    let open = address_reduction::in_round(before, supplies, shapes, i);
                    let q = open.message(c);
                    &&& open.chunk is Some
                    &&& open.challenges.len() == i
                    &&& univariate::eval(q, F::of_int(0)).plus(univariate::eval(q, F::of_int(1)))
                        == c
                })
        }),
{
    let n = s.groups.len() as int;
    let gs = s.groups;
    let claim = start_claim(s, tables).times(s.scale);
    let first = address_reduction::phase_inputs(s, supplies, shapes, r, 0);
    let phase = supplies.len() - 1;
    let last = address_reduction::phase_inputs(s, supplies, shapes, r, phase);
    let point = address_reduction::phase_point(r, phase);
    lemma_decomposed_supplies(s, supplies, shapes, r, tables);
    let honest = |g: int|
        gs[g].u_eval_sum.times(value_at(s.gamma, tables, gs[g], index_point(gs[g], s.log_k)));
    let start = |g: int|
        gs[g].u_eval_sum.times(
            address_reduction::raf_of_index(
                s.gamma,
                gs[g].lookup_index as int,
                gs[g].is_interleaved_operands,
                s.log_k,
            ).plus(address_reduction::read_value(first, None, g)),
        );
    assert forall|g: int| 0 <= g < n implies #[trigger] honest(g) == start(g) by {
        let x = gs[g].lookup_index as int;
        assert(decomposes(s, supplies, shapes, r, tables, 0, g));
        assert(reached(r, x, 0) =~= index_point(gs[g], s.log_k));
        law_raf_at_index(s.gamma, x, gs[g].is_interleaved_operands, s.log_k);
        F::law_plus_comm(
            read_at(tables, gs[g].lookup_table_index, index_point(gs[g], s.log_k)),
            address_reduction::raf_of_index(
                s.gamma,
                x,
                gs[g].is_interleaved_operands,
                s.log_k,
            ),
        );
    }
    sums::lemma_sum_ext(n, honest, start);
    address_reduction::law_rounds(s, supplies, shapes, r, claim);
    let end = |g: int|
        gs[g].u_eval_sum.times(poly::eq_weight(r, gs[g].lookup_index as int)).times(
            address_reduction::raf_at_point(s.gamma, r, gs[g].is_interleaved_operands).plus(
                address_reduction::read_value(last, Some(point), g),
            ),
        );
    let taken = |g: int|
        gs[g].u_eval_sum.times(poly::eq_mle(r, index_point(gs[g], s.log_k))).times(
            value_at(s.gamma, tables, gs[g], r),
        );
    assert forall|g: int| 0 <= g < n implies #[trigger] end(g) == taken(g) by {
        let x = gs[g].lookup_index as int;
        assert(decomposes(s, supplies, shapes, r, tables, phase, g));
        assert(8 * phase + 8 == s.log_k);
        assert(reached(r, x, 8 * phase + 8) =~= r);
        operand_poly::law_eq_binary_point(r, x);
        F::law_plus_comm(
            read_at(tables, gs[g].lookup_table_index, r),
            address_reduction::raf_at_point(s.gamma, r, gs[g].is_interleaved_operands),
        );
    }
    sums::lemma_sum_ext(n, end, taken);
}

} // verus!
