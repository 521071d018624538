//! The lookups of a trace, grouped: cycles that look up the same index in the same table in the same
//! way share one group, whose weight is the sum of their weights.

use crate::field;
use crate::field::Field;
use crate::framework::sums;
use crate::zkvm::trace::NUM_LOOKUP_TABLES;
use vstd::prelude::*;

verus! {

/// What a cycle looks up: the index, the table if any, and whether the operands are interleaved.
pub type LookupKey = (u128, Option<usize>, bool);

/// All cycles that look up the same index in the same table in the same way.
#[derive(Debug)]
pub struct LookupGroup<F> {
    pub lookup_index: u128,
    pub lookup_table_index: Option<usize>,
    pub is_interleaved_operands: bool,
    /// The sum of the weights of the cycles.
    pub u_eval_sum: F,
    /// The weight restricted to the address bits bound so far.
    pub phase_u_eval_sum: F,
}

impl<F: Field> LookupGroup<F> {
    /// What the cycles of the group look up.
    pub open spec fn key(self) -> LookupKey {
        (self.lookup_index, self.lookup_table_index, self.is_interleaved_operands)
    }
}

/// What the cycles look up.
pub open spec fn keys(
    lookup_indices: Seq<u128>,
    lookup_table_indices: Seq<Option<usize>>,
    is_interleaved_operands: Seq<bool>,
) -> Seq<LookupKey> {
    Seq::new(
        lookup_indices.len(),
        |j: int| (lookup_indices[j], lookup_table_indices[j], is_interleaved_operands[j]),
    )
}

/// The distinct lookups of the first `n` cycles, in the order of their first occurrence.
pub open spec fn distinct(ks: Seq<LookupKey>, n: int) -> Seq<LookupKey>
    decreases n,
{
    if n <= 0 {
        Seq::empty()
    } else {
        let before = distinct(ks, n - 1);
        if before.contains(ks[n - 1]) {
            before
        } else {
            before.push(ks[n - 1])
        }
    }
}

/// What a cycle adds to the weight of a lookup.
pub open spec fn share<F: Field>(ks: Seq<LookupKey>, u: Seq<F>, key: LookupKey, j: int) -> F {
    sums::flagged(ks[j] == key, u[j])
}

/// The summed weight of a lookup over the first `n` cycles.
pub open spec fn weight<F: Field>(ks: Seq<LookupKey>, u: Seq<F>, key: LookupKey, n: int) -> F {
    sums::sum(n, |j: int| share(ks, u, key, j))
}

/// The group of a lookup over the first `n` cycles.
pub open spec fn group_of<F: Field>(
    ks: Seq<LookupKey>,
    u: Seq<F>,
    key: LookupKey,
    n: int,
) -> LookupGroup<F> {
    LookupGroup {
        lookup_index: key.0,
        lookup_table_index: key.1,
        is_interleaved_operands: key.2,
        u_eval_sum: weight(ks, u, key, n),
        phase_u_eval_sum: weight(ks, u, key, n),
    }
}

/// The groups of the first `n` cycles.
pub open spec fn groups<F: Field>(ks: Seq<LookupKey>, u: Seq<F>, n: int) -> Seq<LookupGroup<F>> {
    Seq::new(distinct(ks, n).len(), |g: int| group_of(ks, u, distinct(ks, n)[g], n))
}

/// The positions among the first `n` groups of those that read a table.
pub open spec fn members<F: Field>(gs: Seq<LookupGroup<F>>, table: int, n: int) -> Seq<usize>
    decreases n,
{
    if n <= 0 {
        Seq::empty()
    } else {
        let before = members(gs, table, n - 1);
        match gs[n - 1].lookup_table_index {
            Some(t) => if t == table {
                before.push((n - 1) as usize)
            } else {
                before
            },
            None => before,
        }
    }
}

/// No lookup occurs twice, and every cycle's lookup occurs.
pub proof fn lemma_distinct(ks: Seq<LookupKey>, n: int)
    requires
        0 <= n <= ks.len(),
    ensures
        distinct(ks, n).len() <= n,
        forall|a: int, b: int|
            0 <= a < b < distinct(ks, n).len() ==> #[trigger] distinct(ks, n)[a]
                != #[trigger] distinct(ks, n)[b],
        forall|j: int| 0 <= j < n ==> distinct(ks, n).contains(#[trigger] ks[j]),
    decreases n,
{
    if n > 0 {
        lemma_distinct(ks, n - 1);
        let before = distinct(ks, n - 1);
        let after = distinct(ks, n);
        assert forall|j: int| 0 <= j < n implies after.contains(#[trigger] ks[j]) by {
            if j < n - 1 {
                assert(before.contains(ks[j]));
                let a = choose|a: int| 0 <= a < before.len() && before[a] == ks[j];
                assert(after[a] == ks[j]);
            } else if !before.contains(ks[n - 1]) {
                assert(after[before.len() as int] == ks[n - 1]);
            }
        }
    }
}

/// The distinct lookups are lookups of cycles.
pub proof fn lemma_distinct_from(ks: Seq<LookupKey>, n: int, g: int)
    requires
        0 <= n <= ks.len(),
        0 <= g < distinct(ks, n).len(),
    ensures
        exists|j: int| 0 <= j < n && #[trigger] ks[j] == distinct(ks, n)[g],
    decreases n,
{
    let before = distinct(ks, n - 1);
    if g < before.len() {
        lemma_distinct_from(ks, n - 1, g);
        let j = choose|j: int| 0 <= j < n - 1 && #[trigger] ks[j] == before[g];
        assert(ks[j] == distinct(ks, n)[g]);
    } else {
        assert(ks[n - 1] == distinct(ks, n)[g]);
    }
}

/// The weight of a lookup grows with the cycles that make it, and only with them.
proof fn lemma_weight_step<F: Field>(ks: Seq<LookupKey>, u: Seq<F>, key: LookupKey, n: int)
    requires
        n >= 0,
    ensures
        weight(ks, u, key, n + 1) == (if ks[n] == key {
            weight(ks, u, key, n).plus(u[n])
        } else {
            weight(ks, u, key, n)
        }),
{
    let f = |j: int| share(ks, u, key, j);
    sums::lemma_sum_valid(n, f);
    F::law_plus_zero(sums::sum(n, f));
}

/// A lookup that no cycle makes weighs nothing.
proof fn lemma_weight_zero<F: Field>(ks: Seq<LookupKey>, u: Seq<F>, key: LookupKey, n: int)
    requires
        0 <= n <= ks.len(),
        !distinct(ks, n).contains(key),
    ensures
        weight(ks, u, key, n) == F::of_int(0),
{
    let f = |j: int| share(ks, u, key, j);
    lemma_distinct(ks, n);
    assert forall|j: int| 0 <= j < n implies #[trigger] f(j) == F::of_int(0) by {
        assert(distinct(ks, n).contains(ks[j]));
    }
    sums::lemma_sum_zero(n, f);
}

/// Every position among the members of a table is a position among the groups.
pub proof fn lemma_members_in_range<F: Field>(gs: Seq<LookupGroup<F>>, table: int, n: int)
    requires
        0 <= n <= gs.len(),
        gs.len() <= usize::MAX,
    ensures
        forall|i: int|
            0 <= i < members(gs, table, n).len() ==> #[trigger] members(gs, table, n)[i] < n
                && gs[members(gs, table, n)[i] as int].lookup_table_index == Some(table as usize),
    decreases n,
{
    if n > 0 {
        lemma_members_in_range(gs, table, n - 1);
    }
}

/// The members of a table depend only on the tables of the groups.
pub proof fn lemma_members_ext<F: Field>(
    a: Seq<LookupGroup<F>>,
    b: Seq<LookupGroup<F>>,
    table: int,
    n: int,
)
    requires
        forall|g: int|
            0 <= g < n ==> (#[trigger] a[g]).lookup_table_index == b[g].lookup_table_index,
    ensures
        members(a, table, n) == members(b, table, n),
    decreases n,
{
    if n > 0 {
        lemma_members_ext(a, b, table, n - 1);
        assert(a[n - 1].lookup_table_index == b[n - 1].lookup_table_index);
    }
}

/// A group is among the members of exactly the table it reads.
pub proof fn lemma_members_complete<F: Field>(
    gs: Seq<LookupGroup<F>>,
    table: int,
    n: int,
    g: int,
)
    requires
        0 <= g < n <= gs.len(),
        gs.len() <= usize::MAX,
        0 <= table <= usize::MAX,
        gs[g].lookup_table_index == Some(table as usize),
    ensures
        members(gs, table, n).contains(g as usize),
    decreases n,
{
    let before = members(gs, table, n - 1);
    let after = members(gs, table, n);
    if g < n - 1 {
        lemma_members_complete(gs, table, n - 1, g);
        let i = choose|i: int| 0 <= i < before.len() && before[i] == g as usize;
        assert(after[i] == g as usize);
    } else {
        assert(after[before.len() as int] == g as usize);
    }
}

/// The position of a lookup among the groups.
fn position<F: Field>(gs: &Vec<LookupGroup<F>>, key: &LookupKey) -> (r: Option<usize>)
    ensures
        match r {
            Some(g) => g < gs@.len() && gs@[g as int].key() == *key,
            None => forall|g: int| 0 <= g < gs@.len() ==> (#[trigger] gs@[g]).key() != *key,
        },
{
    for g in 0..gs.len()
        invariant
            forall|h: int| 0 <= h < g ==> (#[trigger] gs@[h]).key() != *key,
    {
        let group: &LookupGroup<F> = &gs[g];
        let same_table: bool = match (group.lookup_table_index, key.1) {
            (Some(a), Some(b)) => a == b,
            (None, None) => true,
            _ => false,
        };
        if group.lookup_index == key.0 && same_table && group.is_interleaved_operands == key.2 {
            return Some(g);
        }
    }
    None
}

/// The groups of one more cycle.
proof fn lemma_groups_step<F: Field>(
    ks: Seq<LookupKey>,
    u: Seq<F>,
    n: int,
    gs: Seq<LookupGroup<F>>,
    after: Seq<LookupGroup<F>>,
)
    requires
        0 <= n < ks.len(),
        gs == groups(ks, u, n),
        ({
            let key = ks[n];
            if distinct(ks, n).contains(key) {
                exists|g: int|
                    0 <= g < gs.len() && (#[trigger] gs[g]).key() == key && after == gs.update(
                        g,
                        LookupGroup {
                            u_eval_sum: gs[g].u_eval_sum.plus(u[n]),
                            phase_u_eval_sum: gs[g].phase_u_eval_sum.plus(u[n]),
                            ..gs[g]
                        },
                    )
            } else {
                after == gs.push(
                    LookupGroup {
                        lookup_index: key.0,
                        lookup_table_index: key.1,
                        is_interleaved_operands: key.2,
                        u_eval_sum: F::of_int(0).plus(u[n]),
                        phase_u_eval_sum: F::of_int(0).plus(u[n]),
                    },
                )
            }
        }),
    ensures
        after == groups(ks, u, n + 1),
{
    let key = ks[n];
    let d = distinct(ks, n);
    let whole = groups(ks, u, n + 1);
    lemma_distinct(ks, n);
    assert forall|g: int| 0 <= g < d.len() implies #[trigger] d[g] == distinct(ks, n + 1)[g] by {}
    assert forall|g: int| 0 <= g < whole.len() implies #[trigger] whole[g] == after[g] by {
        lemma_weight_step(ks, u, distinct(ks, n + 1)[g], n);
        if g == d.len() {
            lemma_weight_zero(ks, u, key, n);
        }
    }
    assert(after =~= whole);
}

/// Group the lookups of a trace. The result holds the groups, the group of every cycle, and the
/// groups of every table.
pub fn lookup_groups_from_trace<F: Field>(
    lookup_indices: &[u128],
    lookup_table_indices: &[Option<usize>],
    is_interleaved_operands: &[bool],
    u_evals: &[F],
) -> (r: (Vec<LookupGroup<F>>, Vec<usize>, Vec<Vec<usize>>))
    requires
        lookup_table_indices@.len() == lookup_indices@.len(),
        is_interleaved_operands@.len() == lookup_indices@.len(),
        u_evals@.len() >= lookup_indices@.len(),
        forall|j: int|
            0 <= j < lookup_indices@.len() && #[trigger] lookup_table_indices@[j] is Some
                ==> lookup_table_indices@[j]->0 < NUM_LOOKUP_TABLES,
    ensures
        ({
            let ks = keys(lookup_indices@, lookup_table_indices@, is_interleaved_operands@);
            let n = ks.len() as int;
            &&& r.0@ == groups(ks, u_evals@, n)
            &&& r.1@.len() == n
            &&& forall|j: int|
                0 <= j < n ==> #[trigger] r.1@[j] < distinct(ks, n).len() && distinct(
                    ks,
                    n,
                )[r.1@[j] as int] == ks[j]
            &&& r.2@.len() == NUM_LOOKUP_TABLES
            &&& forall|t: int|
                0 <= t < NUM_LOOKUP_TABLES ==> (#[trigger] r.2@[t])@ == members(
                    r.0@,
                    t,
                    r.0@.len() as int,
                )
        }),
{
    let n: usize = lookup_indices.len();
    let ghost ks = keys(lookup_indices@, lookup_table_indices@, is_interleaved_operands@);
    let mut gs: Vec<LookupGroup<F>> = Vec::new();
    let mut by_cycle: Vec<usize> = Vec::new();
    assert(gs@ =~= groups(ks, u_evals@, 0));
    for cycle in 0..n
        invariant
            n == lookup_indices@.len(),
            n == ks.len(),
            lookup_table_indices@.len() == n,
            is_interleaved_operands@.len() == n,
            u_evals@.len() >= n,
            ks == keys(lookup_indices@, lookup_table_indices@, is_interleaved_operands@),
            gs@ == groups(ks, u_evals@, cycle as int),
            by_cycle@.len() == cycle,
            forall|j: int|
                0 <= j < cycle ==> #[trigger] by_cycle@[j] < distinct(ks, cycle as int).len()
                    && distinct(ks, cycle as int)[by_cycle@[j] as int] == ks[j],
    {
        let key: LookupKey = (
            lookup_indices[cycle],
            lookup_table_indices[cycle],
            is_interleaved_operands[cycle],
        );
        let ghost before = gs@;
        let ghost d = distinct(ks, cycle as int);
        let u: F = u_evals[cycle];
        assert(ks[cycle as int] == key);
        proof {
            assert forall|g: int| 0 <= g < before.len() implies (#[trigger] before[g]).key() == d[g] by {}
        }
        match position(&gs, &key) {
            Some(g) => {
                assert(before[g as int].key() == key);
                assert(d.contains(key)) by {
                    assert(d[g as int] == key);
                }
                let group: LookupGroup<F> = LookupGroup {
                    lookup_index: gs[g].lookup_index,
                    lookup_table_index: gs[g].lookup_table_index,
                    is_interleaved_operands: gs[g].is_interleaved_operands,
                    u_eval_sum: gs[g].u_eval_sum.add(u),
                    phase_u_eval_sum: gs[g].phase_u_eval_sum.add(u),
                };
                gs.set(g, group);
                by_cycle.push(g);
            },
            None => {
                assert(!d.contains(key)) by {
                    if d.contains(key) {
                        let a = choose|a: int| 0 <= a < d.len() && d[a] == key;
                        assert(before[a].key() == key);
                    }
                }
                let at: usize = gs.len();
                let first: F = field::zero();
                gs.push(
                    LookupGroup {
                        lookup_index: key.0,
                        lookup_table_index: key.1,
                        is_interleaved_operands: key.2,
                        u_eval_sum: first.add(u),
                        phase_u_eval_sum: first.add(u),
                    },
                );
                by_cycle.push(at);
            },
        }
        proof {
            lemma_groups_step(ks, u_evals@, cycle as int, before, gs@);
        }
    }
    let mut by_table: Vec<Vec<usize>> = Vec::new();
    for t in 0..NUM_LOOKUP_TABLES
        invariant
            by_table@.len() == t,
            forall|c: int|
                0 <= c < t ==> (#[trigger] by_table@[c])@ == members(gs@, c, gs@.len() as int),
    {
        let mut list: Vec<usize> = Vec::new();
        for g in 0..gs.len()
            invariant
                list@ == members(gs@, t as int, g as int),
        {
            match gs[g].lookup_table_index {
                Some(table) => {
                    if table == t {
                        list.push(g);
                    }
                },
                None => {},
            }
        }
        by_table.push(list);
    }
    (gs, by_cycle, by_table)
}

/// Grouping keeps every weighted sum: a sum over the groups of a function of the lookup is the sum
/// over the cycles.
pub proof fn law_grouping<F: Field>(ks: Seq<LookupKey>, u: Seq<F>, f: spec_fn(LookupKey) -> F)
    ensures
        sums::sum(
            groups(ks, u, ks.len() as int).len() as int,
            |g: int|
                groups(ks, u, ks.len() as int)[g].u_eval_sum.times(
                    f(groups(ks, u, ks.len() as int)[g].key()),
                ),
        ) == sums::sum(ks.len() as int, |j: int| u[j].times(f(ks[j]))),
{
    let n = ks.len() as int;
    let d = distinct(ks, n);
    let m = d.len() as int;
    let gs = groups(ks, u, n);
    lemma_distinct(ks, n);
    let cell = |g: int, j: int| share(ks, u, d[g], j).times(f(d[g]));
    let left = |g: int| gs[g].u_eval_sum.times(f(gs[g].key()));
    assert forall|g: int| 0 <= g < m implies #[trigger] left(g) == sums::sum(
        n,
        |j: int| cell(g, j),
    ) by {
        let h = |j: int| share(ks, u, d[g], j);
        sums::lemma_sum_scale_right(n, h, f(d[g]));
        sums::lemma_sum_ext(n, |j: int| h(j).times(f(d[g])), |j: int| cell(g, j));
    }
    sums::lemma_sum_ext(m, left, |g: int| sums::sum(n, |j: int| cell(g, j)));
    sums::lemma_sum_swap(m, n, cell);
    let right = |j: int| u[j].times(f(ks[j]));
    assert forall|j: int| 0 <= j < n implies #[trigger] right(j) == sums::sum(
        m,
        |g: int| cell(g, j),
    ) by {
        assert(d.contains(ks[j]));
        let a = choose|a: int| 0 <= a < d.len() && d[a] == ks[j];
        let h = |g: int| cell(g, j);
        assert forall|g: int| 0 <= g < m && g != a implies #[trigger] h(g) == F::of_int(0) by {
            field::lemma_zero_times(f(d[g]));
        }
        F::law_valid(u[j], f(d[a]));
        sums::lemma_sum_single(m, a, h);
        sums::lemma_sum_ext(m, h, |g: int| cell(g, j));
    }
    sums::lemma_sum_ext(n, right, |j: int| sums::sum(m, |i: int| cell(i, j)));
    sums::lemma_sum_ext(
        m,
        left,
        |g: int|
            groups(ks, u, ks.len() as int)[g].u_eval_sum.times(
                f(groups(ks, u, ks.len() as int)[g].key()),
            ),
    );
}

} // verus!
