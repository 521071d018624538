//! What the lookups of the cycles say: the operands in an index, the groups of equal lookups, and the
//! claims of the read check.

use crate::field::Field;
use crate::framework::accumulator::{
    Claims, CommittedPolynomial, OpeningId, SumcheckId, VirtualPolynomial,
};
use crate::framework::poly;
use crate::framework::sums;
use crate::zkvm::instruction_lookups::address_reduction;
use crate::zkvm::instruction_lookups::index_bits;
use crate::zkvm::instruction_lookups::lookup_groups;
use crate::zkvm::instruction_lookups::lookup_groups::{LookupGroup, LookupKey};
use crate::zkvm::instruction_lookups::operand_poly;
use crate::zkvm::instruction_lookups::read_raf_sumcheck;
use crate::zkvm::instruction_lookups::read_raf_sumcheck::CycleModel;
use crate::zkvm::trace::NUM_LOOKUP_TABLES;
use vstd::arithmetic::power2::pow2;
use vstd::prelude::*;

verus! {

/// The bits of strided bits are the bits they were taken from.
proof fn lemma_strided_bit(x: int, low: nat, step: nat, m: nat, i: nat)
    requires
        i < m,
    ensures
        (operand_poly::strided_bits(x, low, step, m) / (pow2(i) as int)) % 2 == (x / (pow2(
            low + step * i,
        ) as int)) % 2,
    decreases i,
{
    let high = operand_poly::strided_bits(x, low + step, step, (m - 1) as nat);
    let bit = (x / (pow2(low) as int)) % 2;
    let whole = operand_poly::strided_bits(x, low, step, m);
    assert(whole == 2 * high + bit);
    if i == 0 {
        poly::lemma_pow2_zero();
        assert(step * i == 0) by (nonlinear_arith)
            requires
                i == 0,
        ;
        assert(whole / 1 == whole);
    } else {
        let i1 = (i - 1) as nat;
        lemma_strided_bit(x, low + step, step, (m - 1) as nat, i1);
        assert(low + step + step * i1 == low + step * i) by (nonlinear_arith)
            requires
                i1 == i - 1,
        ;
        poly::lemma_pow2_step(i);
        index_bits::lemma_strided_bound(x, low, step, m);
        vstd::arithmetic::div_mod::lemma_div_denominator(whole, 2, pow2(i1) as int);
        assert(whole / 2 == high);
    }
}

/// The left operand of an interleaved index of `n` bits holds, bit for bit, its odd positions, and the
/// right operand its even ones. Both have half as many bits as the index.
pub proof fn law_operands(x: int, n: nat, i: nat)
    requires
        i < n / 2,
    ensures
        0 <= index_bits::left_operand(x, n) < pow2(n / 2),
        0 <= index_bits::right_operand(x, n) < pow2(n / 2),
        (index_bits::left_operand(x, n) / (pow2(i) as int)) % 2 == (x / (pow2(2 * i + 1) as int))
            % 2,
        (index_bits::right_operand(x, n) / (pow2(i) as int)) % 2 == (x / (pow2(2 * i) as int)) % 2,
{
    index_bits::lemma_strided_bound(x, 1, 2, n / 2);
    index_bits::lemma_strided_bound(x, 0, 2, n / 2);
    lemma_strided_bit(x, 1, 2, n / 2, i);
    lemma_strided_bit(x, 0, 2, n / 2, i);
    assert(1 + 2 * i == 2 * i + 1);
    assert(0 + 2 * i == 2 * i);
}

/// The groups of a trace are its different lookups, each with the sum of the weights of its cycles.
/// Every cycle's lookup has a group, every group is the lookup of some cycle, and no two groups hold
/// the same lookup.
pub proof fn law_groups<F: Field>(ks: Seq<LookupKey>, u: Seq<F>, g: int, j: int)
    requires
        0 <= g < lookup_groups::groups(ks, u, ks.len() as int).len(),
        0 <= j < ks.len(),
    ensures
        ({
            let gs = lookup_groups::groups(ks, u, ks.len() as int);
            let key = |i: int|
                (gs[i].lookup_index, gs[i].lookup_table_index, gs[i].is_interleaved_operands);
            &&& gs[g].u_eval_sum == sums::sum(
                ks.len() as int,
                |c: int|
                    if ks[c] == key(g) {
                        u[c]
                    } else {
                        F::of_int(0)
                    },
            )
            &&& gs[g].phase_u_eval_sum == gs[g].u_eval_sum
            &&& exists|c: int| 0 <= c < ks.len() && #[trigger] ks[c] == key(g)
            &&& exists|h: int| 0 <= h < gs.len() && #[trigger] key(h) == ks[j]
            &&& forall|h: int| 0 <= h < gs.len() && h != g ==> #[trigger] key(h) != key(g)
        }),
{
    let n = ks.len() as int;
    let gs = lookup_groups::groups(ks, u, n);
    let d = lookup_groups::distinct(ks, n);
    let key = |i: int|
        (gs[i].lookup_index, gs[i].lookup_table_index, gs[i].is_interleaved_operands);
    assert forall|h: int| 0 <= h < gs.len() implies #[trigger] key(h) == d[h] by {}
    lookup_groups::lemma_distinct(ks, n);
    lookup_groups::lemma_distinct_from(ks, n, g);
    assert(key(g) == d[g]);
    sums::lemma_sum_ext(
        n,
        |c: int| lookup_groups::share(ks, u, d[g], c),
        |c: int|
            if ks[c] == key(g) {
                u[c]
            } else {
                F::of_int(0)
            },
    );
    let c = choose|c: int| 0 <= c < n && ks[c] == d[g];
    assert(ks[c] == key(g));
    assert(d.contains(ks[j]));
    let h = choose|h: int| 0 <= h < d.len() && d[h] == ks[j];
    assert(key(h) == ks[j]);
    assert forall|h: int| 0 <= h < gs.len() && h != g implies #[trigger] key(h) != key(g) by {
        if h < g {
            assert(d[h] != d[g]);
        } else {
            assert(d[g] != d[h]);
        }
    }
}

/// The groups listed for a table are exactly those that read it, in ascending order.
pub proof fn law_members<F: Field>(gs: Seq<LookupGroup<F>>, table: usize, g: int)
    requires
        0 <= g < gs.len() <= usize::MAX,
    ensures
        ({
            let listed = lookup_groups::members(gs, table as int, gs.len() as int);
            &&& listed.contains(g as usize) <==> gs[g].lookup_table_index == Some(table)
            &&& forall|a: int, b: int|
                0 <= a < b < listed.len() ==> #[trigger] listed[a] < #[trigger] listed[b]
        }),
{
    let n = gs.len() as int;
    let listed = lookup_groups::members(gs, table as int, n);
    lookup_groups::lemma_members_in_range(gs, table as int, n);
    lemma_members_sorted(gs, table as int, n);
    if gs[g].lookup_table_index == Some(table) {
        lookup_groups::lemma_members_complete(gs, table as int, n, g);
    }
    if listed.contains(g as usize) {
        let i = choose|i: int| 0 <= i < listed.len() && listed[i] == g as usize;
        assert(listed[i] < n);
    }
}

proof fn lemma_members_sorted<F: Field>(gs: Seq<LookupGroup<F>>, table: int, n: int)
    requires
        0 <= n <= gs.len() <= usize::MAX,
    ensures
        ({
            let listed = lookup_groups::members(gs, table, n);
            forall|a: int, b: int|
                0 <= a < b < listed.len() ==> #[trigger] listed[a] < #[trigger] listed[b]
        }),
    decreases n,
{
    if n > 0 {
        lemma_members_sorted(gs, table, n - 1);
        lookup_groups::lemma_members_in_range(gs, table, n - 1);
    }
}

/// The input claim of the instruction read check is the weighted sum over the cycles of what they
/// look up: the entry where a table is read, and the operands, the left one with the challenge and the
/// right one with its square, where they are interleaved. Where they are not, it is the index with the
/// square.
pub proof fn law_input<F: Field>(m: CycleModel<F>, entries: Seq<u64>)
    ensures
        m.input(entries) == sums::sum(
            pow2(m.r_reduction.len()) as int,
            |j: int|
                poly::eq_weight(m.r_reduction, j).times(
                    (if m.tables[j] is Some {
                        F::of_int(entries[j] as int)
                    } else {
                        F::of_int(0)
                    }).plus(
                        if m.interleaved[j] {
                            m.gamma.times(
                                F::of_int(
                                    index_bits::left_operand(m.lookups[j] as int, m.log_k()),
                                ),
                            ).plus(
                                m.gamma.times(m.gamma).times(
                                    F::of_int(
                                        index_bits::right_operand(
                                            m.lookups[j] as int,
                                            m.log_k(),
                                        ),
                                    ),
                                ),
                            )
                        } else {
                            m.gamma.times(m.gamma).times(F::of_int(m.lookups[j] as int))
                        },
                    ),
                ),
        ),
{
    sums::lemma_sum_ext(
        pow2(m.r_reduction.len()) as int,
        |j: int|
            poly::eq_weight(m.r_reduction, j).times(
                read_raf_sumcheck::flagged_entry::<F>(m.tables[j], entries[j]).plus(
                    address_reduction::raf_of_index(
                        m.gamma,
                        m.lookups[j] as int,
                        m.interleaved[j],
                        m.log_k(),
                    ),
                ),
            ),
        |j: int|
            poly::eq_weight(m.r_reduction, j).times(
                (if m.tables[j] is Some {
                    F::of_int(entries[j] as int)
                } else {
                    F::of_int(0)
                }).plus(
                    if m.interleaved[j] {
                        m.gamma.times(
                            F::of_int(
                                index_bits::left_operand(m.lookups[j] as int, m.log_k()),
                            ),
                        ).plus(
                            m.gamma.times(m.gamma).times(
                                F::of_int(
                                    index_bits::right_operand(m.lookups[j] as int, m.log_k()),
                                ),
                            ),
                        )
                    } else {
                        m.gamma.times(m.gamma).times(F::of_int(m.lookups[j] as int))
                    },
                ),
            ),
    );
}

/// The instruction read check records every chunk opening at its own bits of the address followed by
/// the cycle point, and at the cycle point the flag of every table and the flag of the lookups that
/// are not interleaved. A flag adds up the weights of the cycles that have it.
pub proof fn law_named_claims<F: Field>(
    m: CycleModel<F>,
    acc: Claims<F>,
    xs: Seq<F>,
    v: Seq<F>,
    i: int,
    t: int,
)
    requires
        m.sized(),
        xs.len() == m.log_k() + m.r_reduction.len(),
        0 <= i < m.indices.len(),
        0 <= t < NUM_LOOKUP_TABLES,
    ensures
        ({
            let after = read_raf_sumcheck::cached(m, acc, xs, v);
            let own = SumcheckId::InstructionReadRaf;
            let cycle = xs.skip(m.log_k() as int).reverse();
            let chunk = OpeningId::Committed(
                CommittedPolynomial::InstructionRa(i as usize),
                own,
            );
            let table = OpeningId::Virtual(VirtualPolynomial::LookupTableFlag(t as usize), own);
            let flat = OpeningId::Virtual(VirtualPolynomial::InstructionRafFlag, own);
            let weight = |j: int|
                poly::eq_weight(cycle, j).times(poly::eq_weight(m.r_reduction, j));
            &&& after[chunk] == (
                xs.subrange(i * m.chunk_bits, (i + 1) * m.chunk_bits) + cycle,
                v[i],
            )
            &&& after[table] == (
                cycle,
                sums::sum(
                    pow2(m.r_reduction.len()) as int,
                    |j: int|
                        if m.tables[j] == Some(t as usize) {
                            weight(j)
                        } else {
                            F::of_int(0)
                        },
                ),
            )
            &&& after[flat] == (
                cycle,
                sums::sum(
                    pow2(m.r_reduction.len()) as int,
                    |j: int|
                        if m.interleaved[j] {
                            F::of_int(0)
                        } else {
                            weight(j)
                        },
                ),
            )
        }),
{
    let n = pow2(m.r_reduction.len()) as int;
    let cycle = xs.skip(m.log_k() as int).reverse();
    let weight = |j: int| poly::eq_weight(cycle, j).times(poly::eq_weight(m.r_reduction, j));
    read_raf_sumcheck::law_cached(m, acc, xs, v);
    assert(read_raf_sumcheck::cached(m, acc, xs, v).contains_key(read_raf_sumcheck::ra_id(i)));
    assert(read_raf_sumcheck::cached(m, acc, xs, v).contains_key(read_raf_sumcheck::flag_id(t)));
    poly::lemma_row_bound(i, m.indices.len() as int, m.chunk_bits as int);
    assert((i + 1) * m.chunk_bits == i * m.chunk_bits + m.chunk_bits) by (nonlinear_arith);
    assert(m.digit(read_raf_sumcheck::address_part(m, xs), i) =~= xs.subrange(
        i * m.chunk_bits,
        (i + 1) * m.chunk_bits,
    ));
    sums::lemma_sum_ext(
        n,
        |j: int| m.table_flag_term(cycle, t, j),
        |j: int|
            if m.tables[j] == Some(t as usize) {
                weight(j)
            } else {
                F::of_int(0)
            },
    );
    sums::lemma_sum_ext(
        n,
        |j: int| m.identity_flag_term(cycle, j),
        |j: int|
            if m.interleaved[j] {
                F::of_int(0)
            } else {
                weight(j)
            },
    );
}

} // verus!
