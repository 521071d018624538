//! One-hot access matrices, and the values of memory cells over time.
//!
//! Matrices over cells and cycles are cell-major: cell `k` at cycle `j` is entry `k T + j`.

use crate::field;
use crate::field::Field;
use crate::framework::poly;
use crate::framework::sums;
use vstd::arithmetic::power2::pow2;
use vstd::prelude::*;

verus! {

/// The matrix that marks the accessed cell of each cycle.
pub open spec fn one_hot<F: Field>(sel: Seq<Option<int>>, k: nat) -> Seq<F> {
    Seq::new(
        k * sel.len(),
        |x: int|
            if sel[x % (sel.len() as int)] == Some(x / (sel.len() as int)) {
                F::of_int(1)
            } else {
                F::of_int(0)
            },
    )
}

/// The accesses of an index column: one in every cycle.
pub open spec fn marks(indices: Seq<u32>) -> Seq<Option<int>> {
    Seq::new(indices.len(), |j: int| Some(indices[j] as int))
}

/// Every access hits one of `k` cells.
pub open spec fn fits(sel: Seq<Option<int>>, k: int) -> bool {
    forall|j: int|
        0 <= j < sel.len() ==> match #[trigger] sel[j] {
            Some(a) => 0 <= a < k,
            None => true,
        }
}

/// The value of a matrix at the accessed cell of each cycle, and zero where there is none.
pub open spec fn read_column<F: Field>(sel: Seq<Option<int>>, m: Seq<F>) -> Seq<F> {
    Seq::new(
        sel.len(),
        |j: int|
            match sel[j] {
                Some(a) => m[a * sel.len() + j],
                None => F::of_int(0),
            },
    )
}

/// The value of cell `k` before cycle `j`: the last value written to it, and zero at first.
pub open spec fn value_before(writes: Seq<Option<(int, int)>>, k: int, j: int) -> int
    decreases j,
{
    if j <= 0 {
        0
    } else {
        match writes[j - 1] {
            Some((a, post)) => if a == k {
                post
            } else {
                value_before(writes, k, j - 1)
            },
            None => value_before(writes, k, j - 1),
        }
    }
}

/// The cells written, cycle by cycle.
pub open spec fn written(writes: Seq<Option<(int, int)>>) -> Seq<Option<int>> {
    writes.map_values(
        |w: Option<(int, int)>|
            match w {
                Some((a, _)) => Some(a),
                None => None,
            },
    )
}

/// The values of all cells before each cycle.
pub open spec fn values<F: Field>(writes: Seq<Option<(int, int)>>, k: nat) -> Seq<F> {
    Seq::new(
        k * writes.len(),
        |x: int|
            F::of_int(
                value_before(writes, x / (writes.len() as int), x % (writes.len() as int)),
            ),
    )
}

/// The values of all cells after the last cycle.
pub open spec fn final_values<F: Field>(writes: Seq<Option<(int, int)>>, k: nat) -> Seq<F> {
    Seq::new(k, |a: int| F::of_int(value_before(writes, a, writes.len() as int)))
}

/// By how much each cycle changes the cell it writes.
pub open spec fn increment(writes: Seq<Option<(int, int)>>, j: int) -> int {
    match writes[j] {
        Some((a, post)) => post - value_before(writes, a, j),
        None => 0,
    }
}

/// By how much each cycle changes the cell it writes.
pub open spec fn increments<F: Field>(writes: Seq<Option<(int, int)>>) -> Seq<F> {
    Seq::new(writes.len(), |j: int| F::of_int(increment(writes, j)))
}

/// The value each cycle writes, and zero where it writes nothing.
pub open spec fn posts<F: Field>(writes: Seq<Option<(int, int)>>) -> Seq<F> {
    Seq::new(
        writes.len(),
        |j: int|
            match writes[j] {
                Some((_, post)) => F::of_int(post),
                None => F::of_int(0),
            },
    )
}

/// A matrix with its cell coordinates fixed at a point.
pub open spec fn at_address<F: Field>(m: Seq<F>, r_address: Seq<F>, t: nat) -> Seq<F> {
    Seq::new(
        t,
        |j: int|
            sums::sum(
                pow2(r_address.len()) as int,
                |k: int| poly::eq_weight(r_address, k).times(m[k * t + j]),
            ),
    )
}

/// Fix the cell coordinates of a matrix of `t` cycles at a point.
pub fn matrix_at_address<F: Field>(m: &Vec<F>, r_address: &[F], t: usize) -> (r: Vec<F>)
    requires
        pow2(r_address@.len()) <= usize::MAX,
        m@.len() == pow2(r_address@.len()) * t,
    ensures
        r@ == at_address(m@, r_address@, t as nat),
{
    let eq: Vec<F> = poly::eq_evals(r_address);
    let k: usize = eq.len();
    let len: usize = m.len();
    let mut out: Vec<F> = Vec::new();
    for j in 0..t
        invariant
            eq@ == poly::eq_table(r_address@),
            k == pow2(r_address@.len()),
            len == m@.len(),
            len == k * t,
            out@ == at_address(m@, r_address@, t as nat).take(j as int),
    {
        let ghost f = |k: int| poly::eq_weight(r_address@, k).times(m@[k * t + j]);
        let mut total: F = field::zero();
        for a in 0..k
            invariant
                j < t,
                eq@ == poly::eq_table(r_address@),
                k == pow2(r_address@.len()),
                len == m@.len(),
                len == k * t,
                f == (|k: int| poly::eq_weight(r_address@, k).times(m@[k * t + j])),
                total == sums::sum(a as int, f),
        {
            proof {
                poly::lemma_cell_in_range(a as int, j as int, k as int, t as int);
            }
            assert(0 <= a * t <= len) by (nonlinear_arith)
                requires
                    0 <= a * t + j < k * t,
                    len == k * t,
                    a >= 0,
                    t >= 0,
                    j >= 0,
            ;
            total = total.add(eq[a].mul(m[a * t + j]));
        }
        out.push(total);
        assert(out@ =~= at_address(m@, r_address@, t as nat).take(j + 1));
    }
    assert(out@ =~= at_address(m@, r_address@, t as nat));
    out
}

/// The cycles before `j` of a matrix are filled in, and the others hold zeros.
pub open spec fn filled<F: Field>(m: Seq<F>, whole: Seq<F>, t: int, j: int) -> bool {
    &&& m.len() == whole.len()
    &&& forall|x: int|
        0 <= x < m.len() ==> #[trigger] m[x] == (if x % t < j {
            whole[x]
        } else {
            F::of_int(0)
        })
}

/// Write one cell of a matrix of `t` cycles.
pub fn set_cell<F: Field>(m: &mut Vec<F>, k: usize, t: usize, a: usize, j: usize, v: F)
    requires
        old(m)@.len() == k * t,
        a < k,
        j < t,
    ensures
        final(m)@ == old(m)@.update(a * t + j, v),
        0 <= a * t + j < old(m)@.len(),
{
    let len: usize = m.len();
    proof {
        poly::lemma_cell_in_range(a as int, j as int, k as int, t as int);
    }
    assert(0 <= a * t <= len) by (nonlinear_arith)
        requires
            0 <= a * t + j < k * t,
            len == k * t,
            a >= 0,
            t >= 0,
            j >= 0,
    ;
    m.set(a * t + j, v);
}

/// Write the values of all cells at one cycle.
pub fn snapshot<F: Field>(m: &mut Vec<F>, state: &Vec<u64>, t: usize, j: usize)
    requires
        old(m)@.len() == state@.len() * t,
        j < t,
    ensures
        final(m)@.len() == old(m)@.len(),
        forall|x: int|
            0 <= x < old(m)@.len() ==> #[trigger] final(m)@[x] == (if x % (t as int) == j {
                F::of_int(state@[x / (t as int)] as int)
            } else {
                old(m)@[x]
            }),
{
    let k: usize = state.len();
    for a in 0..k
        invariant
            k == state@.len(),
            m@.len() == k * t,
            m@.len() == old(m)@.len(),
            j < t,
            forall|x: int|
                0 <= x < m@.len() ==> #[trigger] m@[x] == (if x % (t as int) == j && x / (t as int)
                    < a {
                    F::of_int(state@[x / (t as int)] as int)
                } else {
                    old(m)@[x]
                }),
    {
        let ghost before = m@;
        proof {
            poly::lemma_block_index(a as int, t as int, j as int);
        }
        set_cell(m, k, t, a, j, F::from_u64(state[a]));
        proof {
            let at = a * t + j;
            assert forall|x: int| 0 <= x < m@.len() implies #[trigger] m@[x] == (if x % (t as int)
                == j && x / (t as int) < a + 1 {
                F::of_int(state@[x / (t as int)] as int)
            } else {
                old(m)@[x]
            }) by {
                assert(before[x] == before[x]);
                if x != at && x % (t as int) == j && x / (t as int) == a {
                    vstd::arithmetic::div_mod::lemma_fundamental_div_mod(x, t as int);
                    assert(t * a == a * t) by (nonlinear_arith);
                }
            }
        }
    }
    proof {
        assert forall|x: int| 0 <= x < m@.len() implies #[trigger] m@[x] == (if x % (t as int)
            == j {
            F::of_int(state@[x / (t as int)] as int)
        } else {
            old(m)@[x]
        }) by {
            poly::lemma_quotient_in_range(x, k as int, t as int);
        }
    }
}

/// Marking the accessed cell of the next cycle fills in that cycle.
pub proof fn lemma_mark<F: Field>(m: Seq<F>, sel: Seq<Option<int>>, k: nat, j: int)
    requires
        filled(m, one_hot::<F>(sel, k), sel.len() as int, j),
        0 <= j < sel.len(),
        fits(sel, k as int),
    ensures
        match sel[j] {
            Some(a) => filled(
                m.update(a * sel.len() + j, F::of_int(1)),
                one_hot::<F>(sel, k),
                sel.len() as int,
                j + 1,
            ),
            None => filled(m, one_hot::<F>(sel, k), sel.len() as int, j + 1),
        },
{
    let t = sel.len() as int;
    let whole = one_hot::<F>(sel, k);
    match sel[j] {
        Some(a) => {
            let n = m.update(a * t + j, F::of_int(1));
            poly::lemma_cell_in_range(a, j, k as int, t);
            poly::lemma_block_index(a, t, j);
            assert forall|x: int| 0 <= x < n.len() implies #[trigger] n[x] == (if x % t < j + 1 {
                whole[x]
            } else {
                F::of_int(0)
            }) by {
                poly::lemma_quotient_in_range(x, k as int, t);
                assert(m[x] == m[x]);
            }
        },
        None => {
            assert forall|x: int| 0 <= x < m.len() implies #[trigger] m[x] == (if x % t < j + 1 {
                whole[x]
            } else {
                F::of_int(0)
            }) by {
                poly::lemma_quotient_in_range(x, k as int, t);
            }
        },
    }
}

/// A matrix filled in up to the last cycle is complete.
pub proof fn lemma_filled<F: Field>(m: Seq<F>, whole: Seq<F>, k: int, t: int)
    requires
        filled(m, whole, t, t),
        m.len() == k * t,
        t > 0,
    ensures
        m == whole,
{
    assert forall|x: int| 0 <= x < m.len() implies m[x] == whole[x] by {
        poly::lemma_quotient_in_range(x, k, t);
        assert(m[x] == m[x]);
    }
    assert(m =~= whole);
}

pub proof fn lemma_one_hot_entry<F: Field>(sel: Seq<Option<int>>, k: nat, a: int, j: int)
    requires
        0 <= a < k,
        0 <= j < sel.len(),
    ensures
        0 <= a * sel.len() + j < k * sel.len(),
        one_hot::<F>(sel, k)[a * sel.len() + j] == (if sel[j] == Some(a) {
            F::of_int(1)
        } else {
            F::of_int(0)
        }),
{
    poly::lemma_cell_in_range(a, j, k as int, sel.len() as int);
    poly::lemma_block_index(a, sel.len() as int, j);
}

pub proof fn lemma_one_hot_valid<F: Field>(sel: Seq<Option<int>>, k: nat)
    ensures
        field::all_valid(one_hot::<F>(sel, k)),
        one_hot::<F>(sel, k).len() == k * sel.len(),
{
    F::law_of_int_valid(0);
    F::law_of_int_valid(1);
}

pub proof fn lemma_values_valid<F: Field>(writes: Seq<Option<(int, int)>>, k: nat)
    ensures
        field::all_valid(values::<F>(writes, k)),
        field::all_valid(increments::<F>(writes)),
        field::all_valid(posts::<F>(writes)),
        field::all_valid(final_values::<F>(writes, k)),
{
    assert forall|x: int| 0 <= x < values::<F>(writes, k).len() implies (#[trigger] values::<F>(
        writes,
        k,
    )[x]).valid() by {
        F::law_of_int_valid(
            value_before(writes, x / (writes.len() as int), x % (writes.len() as int)),
        );
    }
    assert forall|j: int| 0 <= j < writes.len() implies (#[trigger] increments::<F>(
        writes,
    )[j]).valid() by {
        F::law_of_int_valid(increment(writes, j));
    }
    assert forall|j: int| 0 <= j < writes.len() implies (#[trigger] posts::<F>(
        writes,
    )[j]).valid() by {
        F::law_of_int_valid(0);
        match writes[j] {
            Some((_, post)) => F::law_of_int_valid(post),
            None => {},
        }
    }
    assert forall|a: int| 0 <= a < k implies (#[trigger] final_values::<F>(writes, k)[a]).valid() by {
        F::law_of_int_valid(value_before(writes, a, writes.len() as int));
    }
}

pub proof fn lemma_read_column_valid<F: Field>(sel: Seq<Option<int>>, m: Seq<F>, k: nat)
    requires
        fits(sel, k as int),
        m.len() == k * sel.len(),
        field::all_valid(m),
    ensures
        field::all_valid(read_column(sel, m)),
{
    let c = read_column(sel, m);
    assert forall|j: int| 0 <= j < c.len() implies (#[trigger] c[j]).valid() by {
        F::law_of_int_valid(0);
        match sel[j] {
            Some(a) => {
                poly::lemma_cell_in_range(a, j, k as int, sel.len() as int);
                assert(m[a * sel.len() + j].valid());
            },
            None => {},
        }
    }
}

/// Summing a matrix against the access marks and the equality weights of a cycle point evaluates
/// the column of accessed values.
pub proof fn law_access_sum<F: Field>(sel: Seq<Option<int>>, k: nat, m: Seq<F>, r: Seq<F>)
    requires
        sel.len() == pow2(r.len()),
        fits(sel, k as int),
        m.len() == k * sel.len(),
        field::all_valid(m),
    ensures
        sums::sum(
            m.len() as int,
            |x: int|
                poly::broadcast_column(poly::eq_table(r), m.len())[x].times(
                    one_hot::<F>(sel, k)[x].times(m[x]),
                ),
        ) == poly::mle(read_column(sel, m), r),
{
    let t = sel.len() as int;
    let h = one_hot::<F>(sel, k);
    let eq = poly::broadcast_column(poly::eq_table(r), m.len());
    let c = read_column(sel, m);
    vstd::arithmetic::power2::lemma_pow2_pos(r.len());
    let f = |x: int| eq[x].times(h[x].times(m[x]));
    sums::lemma_sum_blocks(k as int, t, f);
    let cell = |a: int, j: int| f(a * t + j);
    let blocks = |a: int| sums::sum(t, |j: int| f(a * t + j));
    let blocks2 = |a: int| sums::sum(t, |j: int| cell(a, j));
    assert forall|a: int| 0 <= a < k implies #[trigger] blocks(a) == blocks2(a) by {
        sums::lemma_sum_ext(t, |j: int| f(a * t + j), |j: int| cell(a, j));
    }
    sums::lemma_sum_ext(k as int, blocks, blocks2);
    sums::lemma_sum_swap(k as int, t, cell);
    let cycles = |j: int| sums::sum(k as int, |a: int| cell(a, j));
    let target = |j: int| c[j].times(poly::eq_weight(r, j));
    assert forall|j: int| 0 <= j < t implies #[trigger] cycles(j) == target(j) by {
        let w = poly::eq_weight(r, j);
        let col = |a: int| cell(a, j);
        poly::lemma_eq_weight_valid(r, j);
        assert forall|a: int| 0 <= a < k implies #[trigger] col(a) == w.times(
            if sel[j] == Some(a) {
                m[a * t + j]
            } else {
                F::of_int(0)
            },
        ) by {
            lemma_one_hot_entry::<F>(sel, k, a, j);
            poly::lemma_block_index(a, t, j);
            assert(m[a * t + j].valid());
            field::lemma_one_times(m[a * t + j]);
            field::lemma_zero_times(m[a * t + j]);
        }
        match sel[j] {
            Some(a0) => {
                assert forall|a: int| 0 <= a < k && a != a0 implies #[trigger] col(a) == F::of_int(
                    0,
                ) by {
                    F::law_times_zero(w);
                }
                assert(col(a0) == w.times(m[a0 * t + j]));
                F::law_valid(w, m[a0 * t + j]);
                sums::lemma_sum_single(k as int, a0, col);
                F::law_times_comm(w, m[a0 * t + j]);
            },
            None => {
                assert forall|a: int| 0 <= a < k implies #[trigger] col(a) == F::of_int(0) by {
                    F::law_times_zero(w);
                }
                sums::lemma_sum_zero(k as int, col);
                field::lemma_zero_times(w);
            },
        }
    }
    sums::lemma_sum_ext(t, cycles, target);
}

/// Summing the values after each write against the write marks evaluates the column of values
/// written.
pub proof fn law_write_sum<F: Field>(writes: Seq<Option<(int, int)>>, k: nat, r: Seq<F>)
    requires
        writes.len() == pow2(r.len()),
        fits(written(writes), k as int),
    ensures
        sums::sum(
            (k * writes.len()) as int,
            |x: int|
                poly::broadcast_column(poly::eq_table(r), k * writes.len())[x].times(
                    one_hot::<F>(written(writes), k)[x].times(
                        poly::broadcast_column(
                            increments::<F>(writes),
                            k * writes.len(),
                        )[x].plus(values::<F>(writes, k)[x]),
                    ),
                ),
        ) == poly::mle(posts::<F>(writes), r),
{
    let n = k * writes.len();
    let t = writes.len() as int;
    let sel = written(writes);
    let v = values::<F>(writes, k);
    let inc = increments::<F>(writes);
    let all = poly::broadcast_column(inc, n);
    let m = Seq::new(n, |x: int| all[x].plus(v[x]));
    vstd::arithmetic::power2::lemma_pow2_pos(r.len());
    assert forall|x: int| 0 <= x < m.len() implies (#[trigger] m[x]).valid() by {
        F::law_valid(all[x], v[x]);
    }
    law_access_sum(sel, k, m, r);
    sums::lemma_sum_ext(
        n as int,
        |x: int|
            poly::broadcast_column(poly::eq_table(r), m.len())[x].times(
                one_hot::<F>(sel, k)[x].times(m[x]),
            ),
        |x: int|
            poly::broadcast_column(poly::eq_table(r), n)[x].times(
                one_hot::<F>(sel, k)[x].times(all[x].plus(v[x])),
            ),
    );
    let c = read_column(sel, m);
    assert(c =~= posts::<F>(writes)) by {
        assert forall|j: int| 0 <= j < t implies c[j] == posts::<F>(writes)[j] by {
            match writes[j] {
                Some((a, post)) => {
                    assert(sel[j] == Some(a));
                    poly::lemma_block_index(a, t, j);
                    poly::lemma_cell_in_range(a, j, k as int, t);
                    F::law_of_int_plus(
                        post - value_before(writes, a, j),
                        value_before(writes, a, j),
                    );
                },
                None => {},
            }
        }
    }
}

/// A cell's value is the sum of the increments written to it before.
pub proof fn law_value_telescopes<F: Field>(writes: Seq<Option<(int, int)>>, k: nat, a: int, j: int)
    requires
        0 <= a < k,
        0 <= j <= writes.len(),
    ensures
        F::of_int(value_before(writes, a, j)) == sums::sum(
            j,
            |i: int|
                increments::<F>(writes)[i].times(
                    one_hot::<F>(written(writes), k)[a * writes.len() + i],
                ),
        ),
    decreases j,
{
    let f = |i: int|
        increments::<F>(writes)[i].times(
            one_hot::<F>(written(writes), k)[a * writes.len() + i],
        );
    if j > 0 {
        law_value_telescopes::<F>(writes, k, a, j - 1);
        lemma_one_hot_entry::<F>(written(writes), k, a, j - 1);
        let before = value_before(writes, a, j - 1);
        let inc = increment(writes, j - 1);
        if written(writes)[j - 1] == Some(a) {
            F::law_of_int_times(inc, 1);
            F::law_of_int_plus(before, inc);
        } else {
            F::law_of_int_times(inc, 0);
            F::law_of_int_plus(before, 0);
        }
    }
}

/// A cell is zero before the first cycle. A cycle adds its increment to the cell it writes and leaves
/// every other cell as it is, and what the last cycle leaves are the final values.
pub proof fn law_cell_steps<F: Field>(writes: Seq<Option<(int, int)>>, k: nat, a: int, j: int)
    requires
        0 <= a < k,
        0 <= j < writes.len(),
    ensures
        ({
            let t = writes.len();
            let v = values::<F>(writes, k);
            let next = v[a * t + j].plus(
                one_hot::<F>(written(writes), k)[a * t + j].times(increments::<F>(writes)[j]),
            );
            &&& v[a * t] == F::of_int(0)
            &&& j + 1 < t ==> v[a * t + (j + 1)] == next
            &&& j + 1 == t ==> final_values::<F>(writes, k)[a] == next
        }),
{
    let t = writes.len() as int;
    let before = value_before(writes, a, j);
    let inc = increment(writes, j);
    poly::lemma_cell_in_range(a, 0, k as int, t);
    poly::lemma_block_index(a, t, 0);
    poly::lemma_cell_in_range(a, j, k as int, t);
    poly::lemma_block_index(a, t, j);
    lemma_one_hot_entry::<F>(written(writes), k, a, j);
    if j + 1 < t {
        poly::lemma_cell_in_range(a, j + 1, k as int, t);
        poly::lemma_block_index(a, t, j + 1);
    }
    if written(writes)[j] == Some(a) {
        F::law_of_int_times(1, inc);
        F::law_of_int_plus(before, inc);
    } else {
        F::law_of_int_times(0, inc);
        F::law_of_int_plus(before, 0);
    }
}

/// What a cycle reads is the sum over all cells of the access indicator times the value.
pub proof fn law_read_as_sum<F: Field>(sel: Seq<Option<int>>, k: nat, m: Seq<F>, j: int)
    requires
        fits(sel, k as int),
        m.len() == k * sel.len(),
        field::all_valid(m),
        0 <= j < sel.len(),
    ensures
        read_column(sel, m)[j] == sums::sum(
            k as int,
            |a: int| one_hot::<F>(sel, k)[a * sel.len() + j].times(m[a * sel.len() + j]),
        ),
{
    let t = sel.len() as int;
    let f = |a: int| one_hot::<F>(sel, k)[a * t + j].times(m[a * t + j]);
    assert forall|a: int| 0 <= a < k implies #[trigger] f(a) == (if sel[j] == Some(a) {
        m[a * t + j]
    } else {
        F::of_int(0)
    }) by {
        lemma_one_hot_entry::<F>(sel, k, a, j);
        assert(m[a * t + j].valid());
        field::lemma_one_times(m[a * t + j]);
        field::lemma_zero_times(m[a * t + j]);
    }
    match sel[j] {
        Some(a0) => {
            poly::lemma_cell_in_range(a0, j, k as int, t);
            assert(m[a0 * t + j].valid());
            assert(f(a0) == m[a0 * t + j]);
            sums::lemma_sum_single(k as int, a0, f);
        },
        None => {
            sums::lemma_sum_zero(k as int, f);
        },
    }
}

/// What a cycle writes is the sum over all cells of the access indicator times the value before the
/// cycle and its increment.
pub proof fn law_write_as_sum<F: Field>(writes: Seq<Option<(int, int)>>, k: nat, j: int)
    requires
        fits(written(writes), k as int),
        0 <= j < writes.len(),
    ensures
        posts::<F>(writes)[j] == sums::sum(
            k as int,
            |a: int|
                one_hot::<F>(written(writes), k)[a * writes.len() + j].times(
                    values::<F>(writes, k)[a * writes.len() + j].plus(increments::<F>(writes)[j]),
                ),
        ),
{
    let t = writes.len() as int;
    let sel = written(writes);
    let inc = increments::<F>(writes)[j];
    let v = values::<F>(writes, k);
    let m = Seq::new(k * writes.len(), |x: int| v[x].plus(inc));
    assert forall|x: int| 0 <= x < m.len() implies (#[trigger] m[x]).valid() by {
        F::law_valid(v[x], inc);
    }
    law_read_as_sum(sel, k, m, j);
    let f = |a: int| one_hot::<F>(sel, k)[a * t + j].times(m[a * t + j]);
    let g = |a: int| one_hot::<F>(sel, k)[a * t + j].times(v[a * t + j].plus(inc));
    assert forall|a: int| 0 <= a < k implies #[trigger] f(a) == g(a) by {
        poly::lemma_cell_in_range(a, j, k as int, t);
    }
    sums::lemma_sum_ext(k as int, f, g);
    match writes[j] {
        Some((a, post)) => {
            assert(sel[j] == Some(a));
            poly::lemma_cell_in_range(a, j, k as int, t);
            poly::lemma_block_index(a, t, j);
            F::law_of_int_plus(value_before(writes, a, j), post - value_before(writes, a, j));
        },
        None => {
            assert(sel[j] is None);
        },
    }
}

/// The less-than weight of a cycle is the sum of the equality weights of all later cycles.
proof fn lemma_lt_weight<F: Field>(r: Seq<F>, i: int)
    requires
        0 <= i < pow2(r.len()),
    ensures
        poly::lt_weight(r, i) == sums::sum(
            pow2(r.len()) - 1 - i,
            |d: int| poly::eq_weight(r, i + 1 + d),
        ),
    decreases r.len(),
{
    poly::lemma_pow2_zero();
    let f = |d: int| poly::eq_weight(r, i + 1 + d);
    let n = pow2(r.len()) as int;
    if r.len() > 0 {
        poly::lemma_pow2_step(r.len());
        let r1 = r.drop_last();
        let x = r.last();
        let half = pow2(r1.len()) as int;
        let q = i / 2;
        lemma_lt_weight(r1, q);
        let g = |d: int| poly::eq_weight(r1, q + 1 + d);
        let count = half - 1 - q;
        // the weights of a pair add up to the weight of its parent
        let from = 2 * (q + 1);
        let pairs = |d: int| poly::eq_weight(r, from + d);
        sums::lemma_sum_pairs(count, pairs);
        let merged = |d: int| pairs(2 * d).plus(pairs(2 * d + 1));
        assert forall|d: int| 0 <= d < count implies #[trigger] merged(d) == g(d) by {
            let e = q + 1 + d;
            assert(from + 2 * d == 2 * e);
            assert((2 * e) / 2 == e && (2 * e) % 2 == 0);
            assert((2 * e + 1) / 2 == e && (2 * e + 1) % 2 == 1);
            let w = poly::eq_weight(r1, e);
            poly::lemma_eq_weight_valid(r1, e);
            F::law_distrib(w, poly::complement(x), x);
            F::law_of_int_valid(1);
            field::lemma_minus_plus(F::of_int(1), x);
            F::law_times_one(w);
        }
        sums::lemma_sum_ext(count, merged, g);
        assert(sums::sum(2 * count, pairs) == poly::lt_weight(r1, q));
        if i % 2 == 1 {
            assert(i + 1 == from);
            sums::lemma_sum_ext(n - 1 - i, f, pairs);
            F::law_times_zero(poly::eq_weight(r1, q));
            sums::lemma_sum_valid(2 * count, pairs);
            F::law_plus_zero(poly::lt_weight(r1, q));
        } else {
            // the odd sibling comes first
            assert(i + 1 == 2 * q + 1);
            assert((2 * q + 1) / 2 == q && (2 * q + 1) % 2 == 1);
            sums::lemma_sum_split(1, 2 * count, f);
            let tail = |d: int| f(1 + d);
            sums::lemma_sum_ext(2 * count, tail, pairs);
            assert(sums::sum(0, f) == F::of_int(0));
            assert(sums::sum(1, f) == sums::sum(0, f).plus(f(0)));
            let first = poly::eq_weight(r1, q).times(x);
            F::law_valid(poly::eq_weight(r1, q), x);
            field::lemma_zero_plus(first);
            F::law_plus_comm(first, poly::lt_weight(r1, q));
        }
    }
}

/// A sum of products with the sums of earlier terms, turned round: each term meets the weights of
/// all later positions.
proof fn lemma_sum_before<F: Field>(n: int, f: spec_fn(int) -> F, w: spec_fn(int) -> F)
    requires
        n >= 0,
    ensures
        sums::sum(n, |j: int| sums::sum(j, f).times(w(j))) == sums::sum(
            n,
            |i: int| f(i).times(sums::sum(n - 1 - i, |d: int| w(i + 1 + d))),
        ),
    decreases n,
{
    let lhs = |j: int| sums::sum(j, f).times(w(j));
    let rhs = |i: int| f(i).times(sums::sum(n - 1 - i, |d: int| w(i + 1 + d)));
    if n > 0 {
        let m = n - 1;
        lemma_sum_before(m, f, w);
        let prev = |i: int| f(i).times(sums::sum(m - 1 - i, |d: int| w(i + 1 + d)));
        let extra = |i: int| f(i).times(w(m));
        let both = |i: int| prev(i).plus(extra(i));
        assert forall|i: int| 0 <= i < m implies #[trigger] rhs(i) == both(i) by {
            let g = |d: int| w(i + 1 + d);
            assert(sums::sum(n - 1 - i, g) == sums::sum(m - 1 - i, g).plus(g(m - 1 - i)));
            F::law_distrib(f(i), sums::sum(m - 1 - i, g), w(m));
        }
        sums::lemma_sum_ext(m, rhs, both);
        sums::lemma_sum_plus(m, prev, extra);
        sums::lemma_sum_scale_right(m, f, w(m));
        let g = |d: int| w(m + 1 + d);
        assert(sums::sum(0, g) == F::of_int(0));
        F::law_times_zero(f(m));
        sums::lemma_sum_valid(m, rhs);
        F::law_plus_zero(sums::sum(m, rhs));
    }
}

/// Fixing the cell coordinates first does not change the extension of a matrix.
pub proof fn lemma_at_address<F: Field>(m: Seq<F>, r_address: Seq<F>, r_cycle: Seq<F>)
    requires
        m.len() == pow2(r_address.len()) * pow2(r_cycle.len()),
    ensures
        poly::mle(at_address(m, r_address, pow2(r_cycle.len())), r_cycle) == poly::mle(
            m,
            r_address + r_cycle,
        ),
{
    let t = pow2(r_cycle.len()) as int;
    let kk = pow2(r_address.len()) as int;
    let col = at_address(m, r_address, pow2(r_cycle.len()));
    poly::lemma_mle_matrix(m, r_address, r_cycle);
    let cell = |k: int, j: int|
        poly::eq_weight(r_address, k).times(m[k * t + j].times(poly::eq_weight(r_cycle, j)));
    let outer = |k: int|
        poly::eq_weight(r_address, k).times(
            sums::sum(
                pow2(r_cycle.len()) as int,
                |j: int| m[k * pow2(r_cycle.len()) + j].times(poly::eq_weight(r_cycle, j)),
            ),
        );
    let outer2 = |k: int| sums::sum(t, |j: int| cell(k, j));
    assert forall|k: int| 0 <= k < kk implies #[trigger] outer(k) == outer2(k) by {
        let inner = |j: int| m[k * pow2(r_cycle.len()) + j].times(poly::eq_weight(r_cycle, j));
        sums::lemma_sum_scale(t, poly::eq_weight(r_address, k), inner);
        sums::lemma_sum_ext(
            t,
            |j: int| cell(k, j),
            |j: int| poly::eq_weight(r_address, k).times(inner(j)),
        );
    }
    sums::lemma_sum_ext(kk, outer, outer2);
    sums::lemma_sum_swap(kk, t, cell);
    let cycles = |j: int| sums::sum(kk, |k: int| cell(k, j));
    let target = |j: int| col[j].times(poly::eq_weight(r_cycle, j));
    assert forall|j: int| 0 <= j < t implies #[trigger] cycles(j) == target(j) by {
        let g = |k: int| poly::eq_weight(r_address, k).times(m[k * t + j]);
        let g2 = |k: int|
            poly::eq_weight(r_address, k).times(m[k * pow2(r_cycle.len()) + j]);
        sums::lemma_sum_ext(kk, g, g2);
        sums::lemma_sum_scale_right(kk, g, poly::eq_weight(r_cycle, j));
        let h = |k: int| g(k).times(poly::eq_weight(r_cycle, j));
        let c = |k: int| cell(k, j);
        assert forall|k: int| 0 <= k < kk implies #[trigger] c(k) == h(k) by {
            F::law_times_assoc(
                poly::eq_weight(r_address, k),
                m[k * t + j],
                poly::eq_weight(r_cycle, j),
            );
        }
        sums::lemma_sum_ext(kk, c, h);
    }
    sums::lemma_sum_ext(t, cycles, target);
}

/// The sum over all cycles of the increments at an address point, each scaled by a weight.
proof fn lemma_increments_at_address<F: Field>(
    writes: Seq<Option<(int, int)>>,
    r_address: Seq<F>,
    weight: spec_fn(int) -> F,
)
    ensures
        sums::sum(
            pow2(r_address.len()) as int,
            |a: int|
                poly::eq_weight(r_address, a).times(
                    sums::sum(
                        writes.len() as int,
                        |i: int|
                            increments::<F>(writes)[i].times(
                                one_hot::<F>(written(writes), pow2(r_address.len()))[a
                                    * writes.len() + i],
                            ).times(weight(i)),
                    ),
                ),
        ) == sums::sum(
            writes.len() as int,
            |i: int|
                increments::<F>(writes)[i].times(
                    at_address(
                        one_hot::<F>(written(writes), pow2(r_address.len())),
                        r_address,
                        writes.len(),
                    )[i],
                ).times(weight(i)),
        ),
{
    let kk = pow2(r_address.len()) as int;
    let n = writes.len() as int;
    let inc = increments::<F>(writes);
    let h = one_hot::<F>(written(writes), pow2(r_address.len()));
    let wa = at_address(h, r_address, writes.len());
    let lhs = |a: int|
        poly::eq_weight(r_address, a).times(
            sums::sum(
                n,
                |i: int| inc[i].times(h[a * writes.len() + i]).times(weight(i)),
            ),
        );
    let cell = |a: int, i: int|
        poly::eq_weight(r_address, a).times(inc[i].times(h[a * writes.len() + i]).times(weight(i)));
    let rows = |a: int| sums::sum(n, |i: int| cell(a, i));
    assert forall|a: int| 0 <= a < kk implies #[trigger] lhs(a) == rows(a) by {
        let g = |i: int| inc[i].times(h[a * writes.len() + i]).times(weight(i));
        sums::lemma_sum_scale(n, poly::eq_weight(r_address, a), g);
        sums::lemma_sum_ext(
            n,
            |i: int| cell(a, i),
            |i: int| poly::eq_weight(r_address, a).times(g(i)),
        );
    }
    sums::lemma_sum_ext(kk, lhs, rows);
    sums::lemma_sum_swap(kk, n, cell);
    let cols = |i: int| sums::sum(kk, |a: int| cell(a, i));
    let rhs = |i: int| inc[i].times(wa[i]).times(weight(i));
    assert forall|i: int| 0 <= i < n implies #[trigger] cols(i) == rhs(i) by {
        let g = |a: int| poly::eq_weight(r_address, a).times(h[a * writes.len() + i]);
        let c = inc[i].times(weight(i));
        let scaled = |a: int| c.times(g(a));
        let col = |a: int| cell(a, i);
        assert forall|a: int| 0 <= a < kk implies #[trigger] col(a) == scaled(a) by {
            let e = poly::eq_weight(r_address, a);
            let b = h[a * writes.len() + i];
            // e ((i b) w) = (i w) (e b)
            F::law_times_assoc(inc[i], b, weight(i));
            F::law_times_comm(b, weight(i));
            F::law_times_assoc(inc[i], weight(i), b);
            field::lemma_times_swap(e, c, b);
        }
        sums::lemma_sum_ext(kk, col, scaled);
        sums::lemma_sum_scale(kk, c, g);
        assert(wa[i] == sums::sum(kk, g));
        F::law_times_assoc(inc[i], weight(i), wa[i]);
        F::law_times_comm(weight(i), wa[i]);
        F::law_times_assoc(inc[i], wa[i], weight(i));
    }
    sums::lemma_sum_ext(n, cols, rhs);
}

/// The extension of the cell values is the sum of the increments at the address point, each
/// weighted by whether it comes before the cycle point.
pub proof fn law_values_from_increments<F: Field>(
    writes: Seq<Option<(int, int)>>,
    r_address: Seq<F>,
    r_cycle: Seq<F>,
)
    requires
        writes.len() == pow2(r_cycle.len()),
    ensures
        poly::mle(values::<F>(writes, pow2(r_address.len())), r_address + r_cycle) == sums::sum(
            writes.len() as int,
            |i: int|
                increments::<F>(writes)[i].times(
                    at_address(
                        one_hot::<F>(written(writes), pow2(r_address.len())),
                        r_address,
                        writes.len(),
                    )[i],
                ).times(poly::lt_table(r_cycle)[i]),
        ),
{
    let k = pow2(r_address.len());
    let n = writes.len() as int;
    let v = values::<F>(writes, k);
    let inc = increments::<F>(writes);
    let h = one_hot::<F>(written(writes), k);
    let lt = |i: int| poly::lt_table(r_cycle)[i];
    vstd::arithmetic::power2::lemma_pow2_pos(r_cycle.len());
    poly::lemma_mle_matrix(v, r_address, r_cycle);
    lemma_increments_at_address(writes, r_address, lt);
    let outer = |a: int|
        poly::eq_weight(r_address, a).times(
            sums::sum(
                pow2(r_cycle.len()) as int,
                |j: int| v[a * pow2(r_cycle.len()) + j].times(poly::eq_weight(r_cycle, j)),
            ),
        );
    let outer2 = |a: int|
        poly::eq_weight(r_address, a).times(
            sums::sum(
                n,
                |i: int| inc[i].times(h[a * writes.len() + i]).times(lt(i)),
            ),
        );
    assert forall|a: int| 0 <= a < k implies #[trigger] outer(a) == outer2(a) by {
        let f = |i: int| inc[i].times(h[a * writes.len() + i]);
        let w = |j: int| poly::eq_weight(r_cycle, j);
        let inner = |j: int| v[a * pow2(r_cycle.len()) + j].times(poly::eq_weight(r_cycle, j));
        let tele = |j: int| sums::sum(j, f).times(w(j));
        assert forall|j: int| 0 <= j < n implies #[trigger] inner(j) == tele(j) by {
            law_value_telescopes::<F>(writes, k, a, j);
            poly::lemma_block_index(a, n, j);
            poly::lemma_cell_in_range(a, j, k as int, n);
            sums::lemma_sum_ext(
                j,
                f,
                |i: int|
                    increments::<F>(writes)[i].times(
                        one_hot::<F>(written(writes), k)[a * writes.len() + i],
                    ),
            );
        }
        sums::lemma_sum_ext(n, inner, tele);
        lemma_sum_before(n, f, w);
        let late = |i: int| f(i).times(sums::sum(n - 1 - i, |d: int| w(i + 1 + d)));
        let weighted = |i: int| inc[i].times(h[a * writes.len() + i]).times(lt(i));
        assert forall|i: int| 0 <= i < n implies #[trigger] late(i) == weighted(i) by {
            lemma_lt_weight(r_cycle, i);
            sums::lemma_sum_ext(
                n - 1 - i,
                |d: int| w(i + 1 + d),
                |d: int| poly::eq_weight(r_cycle, i + 1 + d),
            );
        }
        sums::lemma_sum_ext(n, late, weighted);
    }
    sums::lemma_sum_ext(k as int, outer, outer2);
    let wa = at_address(h, r_address, writes.len());
    sums::lemma_sum_ext(
        n,
        |i: int| inc[i].times(wa[i]).times(lt(i)),
        |i: int| inc[i].times(wa[i]).times(poly::lt_table(r_cycle)[i]),
    );
}

/// The extension of the final cell values is the sum of all increments at the address point.
pub proof fn law_final_values_from_increments<F: Field>(
    writes: Seq<Option<(int, int)>>,
    r_address: Seq<F>,
)
    ensures
        poly::mle(final_values::<F>(writes, pow2(r_address.len())), r_address) == sums::sum(
            writes.len() as int,
            |i: int|
                increments::<F>(writes)[i].times(
                    at_address(
                        one_hot::<F>(written(writes), pow2(r_address.len())),
                        r_address,
                        writes.len(),
                    )[i],
                ),
        ),
{
    let k = pow2(r_address.len());
    let n = writes.len() as int;
    let v = final_values::<F>(writes, k);
    let inc = increments::<F>(writes);
    let h = one_hot::<F>(written(writes), k);
    let wa = at_address(h, r_address, writes.len());
    let one = |i: int| F::of_int(1);
    lemma_increments_at_address(writes, r_address, one);
    let f = |a: int| v[a].times(poly::eq_weight(r_address, a));
    let g = |a: int|
        poly::eq_weight(r_address, a).times(
            sums::sum(n, |i: int| inc[i].times(h[a * writes.len() + i]).times(one(i))),
        );
    assert forall|a: int| 0 <= a < k implies #[trigger] f(a) == g(a) by {
        law_value_telescopes::<F>(writes, k, a, n);
        let tele = |i: int|
            increments::<F>(writes)[i].times(
                one_hot::<F>(written(writes), k)[a * writes.len() + i],
            );
        let ones = |i: int| inc[i].times(h[a * writes.len() + i]).times(one(i));
        assert forall|i: int| 0 <= i < n implies #[trigger] tele(i) == ones(i) by {
            F::law_valid(inc[i], h[a * writes.len() + i]);
            F::law_times_one(inc[i].times(h[a * writes.len() + i]));
        }
        sums::lemma_sum_ext(n, tele, ones);
        F::law_times_comm(v[a], poly::eq_weight(r_address, a));
    }
    sums::lemma_sum_ext(k as int, f, g);
    let ends = |i: int| inc[i].times(wa[i]).times(one(i));
    let target = |i: int| inc[i].times(wa[i]);
    assert forall|i: int| 0 <= i < n implies #[trigger] ends(i) == target(i) by {
        F::law_valid(inc[i], wa[i]);
        F::law_times_one(inc[i].times(wa[i]));
    }
    sums::lemma_sum_ext(n, ends, target);
}

/// A cycle marks at most one of `k` cells: its column of a matrix is zero, or has a single one.
pub open spec fn marks_one<F: Field>(m: Seq<F>, k: nat, t: nat, j: int) -> bool {
    ||| forall|a: int| 0 <= a < k ==> #[trigger] m[a * t + j] == F::of_int(0)
    ||| exists|b: int| #[trigger] marks_only(m, k, t, j, b)
}

/// A cycle marks one cell and no other.
pub open spec fn marks_only<F: Field>(m: Seq<F>, k: nat, t: nat, j: int, b: int) -> bool {
    &&& 0 <= b < k
    &&& m[b * t + j] == F::of_int(1)
    &&& forall|a: int| 0 <= a < k && a != b ==> #[trigger] m[a * t + j] == F::of_int(0)
}

/// An access matrix marks at most one cell in every cycle.
pub proof fn law_one_hot_marks<F: Field>(sel: Seq<Option<int>>, k: nat, j: int)
    requires
        fits(sel, k as int),
        0 <= j < sel.len(),
    ensures
        marks_one(one_hot::<F>(sel, k), k, sel.len(), j),
{
    let m = one_hot::<F>(sel, k);
    let t = sel.len();
    assert forall|a: int| 0 <= a < k implies #[trigger] m[a * t + j] == (if sel[j] == Some(a) {
        F::of_int(1)
    } else {
        F::of_int(0)
    }) by {
        lemma_one_hot_entry::<F>(sel, k, a, j);
    }
    match sel[j] {
        Some(b) => {
            assert(marks_only(m, k, t, j, b));
        },
        None => {},
    }
}

} // verus!
