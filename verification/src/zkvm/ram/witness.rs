//! The memory over time.
//!
//! The columns are a simulation of the memory: the trace supplies the addresses and the values
//! written, and every value read is the one the simulation holds. Memory starts at zero.

use crate::field;
use crate::field::Field;
use crate::framework::bits;
use crate::framework::poly;
use crate::framework::sums;
use crate::zkvm::access;
use crate::zkvm::ram::read_write_checking;
use crate::zkvm::ram::val_check;
use crate::zkvm::registers::witness::column_upto;
use crate::zkvm::trace::CycleRow;
use vstd::arithmetic::power2::pow2;
use vstd::prelude::*;

verus! {

/// The memory columns of a trace.
#[derive(Debug)]
pub struct RamWitness<F> {
    /// The number of bits of an address.
    pub log_k: usize,
    /// The number of bits of a cycle number.
    pub log_t: usize,
    /// The address accessed, one-hot and address-major.
    pub ra: Vec<F>,
    /// The value at each address before each cycle, address-major.
    pub val: Vec<F>,
    /// By how much each cycle changes the address it accesses.
    pub inc: Vec<F>,
    /// The same change as an integer.
    pub inc_i128: Vec<i128>,
    /// The value each cycle finds at the address it accesses.
    pub ram_read_value: Vec<F>,
    /// The value each cycle leaves at the address it accesses.
    pub ram_write_value: Vec<F>,
    /// The value at each address after the last cycle.
    pub val_final: Vec<F>,
}

/// The value at address `k` before cycle `j`.
pub open spec fn state_before(trace: Seq<CycleRow>, k: int, j: int) -> int
    decreases j,
{
    if j <= 0 {
        0
    } else {
        let before = state_before(trace, k, j - 1);
        if j <= trace.len() && trace[j - 1].ram_access_address is Some
            && trace[j - 1].ram_access_address->0 == k && trace[j - 1].ram_write_value is Some {
            trace[j - 1].ram_write_value->0 as int
        } else {
            before
        }
    }
}

/// The addresses accessed by `t` cycles.
pub open spec fn accesses(trace: Seq<CycleRow>, t: nat) -> Seq<Option<int>> {
    Seq::new(
        t,
        |j: int|
            if j < trace.len() {
                match trace[j].ram_access_address {
                    Some(a) => Some(a as int),
                    None => None,
                }
            } else {
                None
            },
    )
}

/// The value a cycle leaves at the address it accesses: what it writes, or what it found.
pub open spec fn post(trace: Seq<CycleRow>, j: int) -> int {
    match trace[j].ram_write_value {
        Some(v) => v as int,
        None => state_before(trace, trace[j].ram_access_address->0 as int, j),
    }
}

/// The addresses accessed by `t` cycles, with the values left there.
pub open spec fn writes(trace: Seq<CycleRow>, t: nat) -> Seq<Option<(int, int)>> {
    Seq::new(
        t,
        |j: int|
            if j < trace.len() {
                match trace[j].ram_access_address {
                    Some(a) => Some((a as int, post(trace, j))),
                    None => None,
                }
            } else {
                None
            },
    )
}

/// Every address of a trace is below `k`.
pub open spec fn addresses_fit(trace: Seq<CycleRow>, k: int) -> bool {
    forall|j: int|
        0 <= j < trace.len() ==> match (#[trigger] trace[j]).ram_access_address {
            Some(a) => a < k,
            None => true,
        }
}

impl<F: Field> RamWitness<F> {
    /// The columns are those of `k` addresses and the padded trace.
    pub open spec fn simulates(self, trace: Seq<CycleRow>, k: nat) -> bool {
        let t = bits::cover(trace.len());
        let w = writes(trace, t);
        &&& k == pow2(self.log_k as nat)
        &&& t == pow2(self.log_t as nat)
        &&& self.ra@ == access::one_hot::<F>(access::written(w), k)
        &&& self.val@ == access::values::<F>(w, k)
        &&& self.inc@ == access::increments::<F>(w)
        &&& self.inc_i128@.len() == t
        &&& forall|j: int| 0 <= j < t ==> #[trigger] self.inc_i128@[j] == access::increment(w, j)
        &&& self.ram_read_value@ == access::read_column(
            access::written(w),
            access::values::<F>(w, k),
        )
        &&& self.ram_write_value@ == access::posts::<F>(w)
        &&& self.val_final@ == access::final_values::<F>(w, k)
    }

    /// Word `a` is zero before the first cycle, cycle `j` adds its increment to the word it accesses, and
    /// what the last cycle leaves is the final memory.
    pub open spec fn steps(self, a: int, j: int) -> bool {
        let t = pow2(self.log_t as nat);
        let next = self.val@[a * t + j].plus(self.ra@[a * t + j].times(self.inc@[j]));
        &&& self.val@[a * t] == F::of_int(0)
        &&& j + 1 < t ==> self.val@[a * t + (j + 1)] == next
        &&& j + 1 == t ==> self.val_final@[a] == next
    }

    /// The values that cycle `j` finds and leaves are sums over the words, it marks at most one word,
    /// and its increment is the recorded integer.
    pub open spec fn accesses(self, j: int) -> bool {
        let t = pow2(self.log_t as nat);
        let k = pow2(self.log_k as nat);
        &&& self.ram_read_value@[j] == sums::sum(
            k as int,
            |a: int| self.ra@[a * t + j].times(self.val@[a * t + j]),
        )
        &&& self.ram_write_value@[j] == sums::sum(
            k as int,
            |a: int| self.ra@[a * t + j].times(self.val@[a * t + j].plus(self.inc@[j])),
        )
        &&& access::marks_one(self.ra@, k, t, j)
        &&& self.inc@[j] == F::of_int(self.inc_i128@[j] as int)
    }

    /// Word `a` is marked in cycle `j` exactly when the cycle accesses it.
    pub open spec fn marks(self, trace: Seq<CycleRow>, a: int, j: int) -> bool {
        let t = pow2(self.log_t as nat);
        self.ra@[a * t + j] == F::of_int(
            if j < trace.len() && trace[j].ram_access_address is Some
                && trace[j].ram_access_address->0 == a {
                1
            } else {
                0
            },
        )
    }

    /// Cycle `j` accesses nothing: it finds and leaves nothing, and leaves word `a` as it is.
    pub open spec fn idle(self, a: int, j: int) -> bool {
        let t = pow2(self.log_t as nat);
        let zero = F::of_int(0);
        &&& self.ra@[a * t + j] == zero
        &&& self.inc@[j] == zero
        &&& self.ram_read_value@[j] == zero
        &&& self.ram_write_value@[j] == zero
        &&& j + 1 < t ==> self.val@[a * t + (j + 1)] == self.val@[a * t + j]
        &&& j + 1 == t ==> self.val_final@[a] == self.val@[a * t + j]
    }

    /// The columns are those of a memory over the cycles of a trace: every word changes by what is
    /// left in it, every value found or left is the one the memory holds, the marked words are the
    /// accessed ones, and cycles without an access are idle.
    pub open spec fn coherent(self, trace: Seq<CycleRow>) -> bool {
        let t = pow2(self.log_t as nat) as int;
        let k = pow2(self.log_k as nat) as int;
        &&& forall|a: int, j: int| 0 <= a < k && 0 <= j < t ==> #[trigger] self.steps(a, j)
        &&& forall|j: int| 0 <= j < t ==> #[trigger] self.accesses(j)
        &&& forall|a: int, j: int| 0 <= a < k && 0 <= j < t ==> #[trigger] self.marks(trace, a, j)
        &&& forall|a: int, j: int|
            0 <= a < k && 0 <= j < t && (j < trace.len() ==> trace[j].ram_access_address is None)
                ==> #[trigger] self.idle(a, j)
    }

    /// Every column has one entry per cycle, every matrix one per address and cycle, and the final
    /// memory one per address.
    pub open spec fn sized(self) -> bool {
        let t = pow2(self.log_t as nat);
        let k = pow2(self.log_k as nat);
        &&& self.ra@.len() == k * t
        &&& self.val@.len() == k * t
        &&& self.inc@.len() == t
        &&& self.ram_read_value@.len() == t
        &&& self.ram_write_value@.len() == t
        &&& self.val_final@.len() == k
    }
}

proof fn lemma_state(trace: Seq<CycleRow>, t: nat, k: int, j: int)
    requires
        0 <= j <= t,
    ensures
        access::value_before(writes(trace, t), k, j) == state_before(trace, k, j),
    decreases j,
{
    if j > 0 {
        lemma_state(trace, t, k, j - 1);
    }
}

proof fn lemma_fits(trace: Seq<CycleRow>, k: int, t: nat)
    requires
        addresses_fit(trace, k),
    ensures
        access::fits(access::written(writes(trace, t)), k),
        access::written(writes(trace, t)) == accesses(trace, t),
{
    let sw = access::written(writes(trace, t));
    assert(sw =~= accesses(trace, t));
    assert forall|j: int| 0 <= j < t && j < trace.len() implies (match #[trigger] sw[j] {
        Some(a) => 0 <= a < k,
        None => true,
    }) by {
        assert(trace[j] == trace[j]);
    }
}

/// Simulate a memory of `ram_k` words over a trace.
pub fn ram_witness<F: Field>(trace: &[CycleRow], ram_k: usize) -> (r: RamWitness<F>)
    requires
        ram_k == bits::cover(ram_k as nat),
        ram_k * bits::cover(trace@.len()) <= usize::MAX,
        addresses_fit(trace@, ram_k as int),
    ensures
        r.simulates(trace@, ram_k as nat),
        r.sized(),
        r.coherent(trace@),
{
    let k: usize = ram_k;
    let log_k: usize = bits::log2_ceil(k);
    let n: usize = trace.len();
    let log_t: usize = bits::log2_ceil(n);
    let ghost tt = bits::cover(n as nat);
    proof {
        bits::law_cover(n as nat);
        vstd::arithmetic::power2::lemma_pow2_pos(log_t as nat);
        vstd::arithmetic::power2::lemma_pow2_pos(log_k as nat);
        assert(tt <= k * tt) by (nonlinear_arith)
            requires
                k >= 1,
                tt >= 0,
        ;
    }
    let t: usize = poly::power_of_two(log_t);
    let size: usize = k * t;
    let ghost w = writes(trace@, tt);
    let ghost sel = access::written(w);
    let ghost whole = access::values::<F>(w, k as nat);
    proof {
        lemma_fits(trace@, k as int, tt);
    }
    let mut ra: Vec<F> = poly::zeros(size);
    let mut val: Vec<F> = poly::zeros(size);
    let mut inc: Vec<F> = poly::zeros(t);
    let mut inc_i128: Vec<i128> = Vec::new();
    let mut ram_read_value: Vec<F> = poly::zeros(t);
    let mut ram_write_value: Vec<F> = poly::zeros(t);
    let mut state: Vec<u64> = Vec::new();
    for a in 0..k
        invariant
            state@ == Seq::new(a as nat, |i: int| 0u64),
    {
        state.push(0);
        assert(state@ =~= Seq::new((a + 1) as nat, |i: int| 0u64));
    }
    let ghost incs = access::increments::<F>(w);
    let ghost posts = access::posts::<F>(w);
    let ghost reads = access::read_column(sel, whole);
    for j in 0..t
        invariant
            n == trace@.len(),
            n <= t,
            t == tt,
            t > 0,
            k * t <= usize::MAX,
            addresses_fit(trace@, k as int),
            w == writes(trace@, tt),
            sel == access::written(w),
            whole == access::values::<F>(w, k as nat),
            access::fits(sel, k as int),
            incs == access::increments::<F>(w),
            posts == access::posts::<F>(w),
            reads == access::read_column(sel, whole),
            state@.len() == k,
            forall|a: int|
                0 <= a < k ==> #[trigger] state@[a] == access::value_before(w, a, j as int),
            ra@.len() == k * t,
            val@.len() == k * t,
            access::filled(ra@, access::one_hot::<F>(sel, k as nat), t as int, j as int),
            access::filled(val@, whole, t as int, j as int),
            column_upto(inc@, incs, j as int),
            column_upto(ram_write_value@, posts, j as int),
            column_upto(ram_read_value@, reads, j as int),
            inc_i128@.len() == j,
            forall|i: int| 0 <= i < j ==> #[trigger] inc_i128@[i] == access::increment(w, i),
    {
        let ghost val0 = val@;
        access::snapshot(&mut val, &state, t, j);
        proof {
            assert forall|x: int| 0 <= x < val@.len() implies #[trigger] val@[x] == (if x % (
            t as int) < j + 1 {
                whole[x]
            } else {
                F::of_int(0)
            }) by {
                poly::lemma_quotient_in_range(x, k as int, t as int);
                assert(val0[x] == val0[x]);
            }
            access::lemma_mark::<F>(ra@, sel, k as nat, j as int);
        }
        let mut delta: i128 = 0;
        if j < n {
            let cycle: CycleRow = trace[j];
            if let Some(address) = cycle.ram_access_address {
                let a: usize = address as usize;
                access::set_cell(&mut ra, k, t, a, j, field::one());
                let pre: u64 = state[a];
                let left: u64 = match cycle.ram_write_value {
                    Some(v) => v,
                    None => pre,
                };
                proof {
                    lemma_state(trace@, tt, a as int, j as int);
                    poly::lemma_block_index(a as int, t as int, j as int);
                    poly::lemma_cell_in_range(a as int, j as int, k as int, t as int);
                }
                ram_read_value.set(j, F::from_u64(pre));
                ram_write_value.set(j, F::from_u64(left));
                delta = left as i128 - pre as i128;
                inc.set(j, F::from_i128(delta));
                state.set(a, left);
            }
        }
        inc_i128.push(delta);
    }
    let mut val_final: Vec<F> = Vec::new();
    for a in 0..k
        invariant
            t == tt,
            w.len() == tt,
            state@.len() == k,
            forall|a: int|
                0 <= a < k ==> #[trigger] state@[a] == access::value_before(w, a, t as int),
            val_final@ == access::final_values::<F>(w, a as nat),
    {
        val_final.push(F::from_u64(state[a]));
        assert(val_final@ =~= access::final_values::<F>(w, (a + 1) as nat));
    }
    proof {
        access::lemma_filled(ra@, access::one_hot::<F>(sel, k as nat), k as int, t as int);
        access::lemma_filled(val@, whole, k as int, t as int);
        assert(inc@ =~= incs);
        assert(ram_write_value@ =~= posts);
        assert(ram_read_value@ =~= reads);
    }
    let r: RamWitness<F> = RamWitness {
        log_k,
        log_t,
        ra,
        val,
        inc,
        inc_i128,
        ram_read_value,
        ram_write_value,
        val_final,
    };
    proof {
        law_coherent(r, trace@, k as nat);
    }
    r
}

/// The simulated memory holds what the trace wrote last.
pub proof fn law_memory<F: Field>(w: RamWitness<F>, trace: Seq<CycleRow>, k: nat, a: int, j: int)
    requires
        w.simulates(trace, k),
        0 <= a < k,
        0 <= j < bits::cover(trace.len()),
    ensures
        w.val@[a * bits::cover(trace.len()) + j] == F::of_int(state_before(trace, a, j)),
        w.val_final@[a] == F::of_int(
            state_before(trace, a, bits::cover(trace.len()) as int),
        ),
{
    let t = bits::cover(trace.len());
    lemma_state(trace, t, a, j);
    lemma_state(trace, t, a, t as int);
    poly::lemma_block_index(a, t as int, j);
    poly::lemma_cell_in_range(a, j, k as int, t as int);
}

/// Every column of a simulation is canonical.
pub proof fn lemma_witness_valid<F: Field>(w: RamWitness<F>, trace: Seq<CycleRow>, k: nat)
    requires
        w.simulates(trace, k),
        addresses_fit(trace, k as int),
    ensures
        w.sized(),
        field::all_valid(w.ra@),
        field::all_valid(w.val@),
        field::all_valid(w.inc@),
        field::all_valid(w.ram_read_value@),
        field::all_valid(w.ram_write_value@),
        field::all_valid(w.val_final@),
{
    let t = bits::cover(trace.len());
    let wr = writes(trace, t);
    access::lemma_one_hot_valid::<F>(access::written(wr), k);
    access::lemma_values_valid::<F>(wr, k);
    lemma_fits(trace, k as int, t);
    access::lemma_read_column_valid(access::written(wr), access::values::<F>(wr, k), k);
}

/// The simulation satisfies the read-write relation: its sums are the extensions of the read and
/// write columns.
pub proof fn law_read_write_relation<F: Field>(
    w: RamWitness<F>,
    trace: Seq<CycleRow>,
    k: nat,
    g: F,
    r: Seq<F>,
)
    requires
        w.simulates(trace, k),
        addresses_fit(trace, k as int),
        r.len() == w.log_t,
    ensures
        read_write_checking::table(g, r, w.ra@, w.val@, w.inc@).total() == poly::mle(
            w.ram_read_value@,
            r,
        ).plus(g.times(poly::mle(w.ram_write_value@, r))),
{
    let t = bits::cover(trace.len());
    let wr = writes(trace, t);
    let n = (k * t) as int;
    lemma_fits(trace, k as int, t);
    access::lemma_values_valid::<F>(wr, k);
    read_write_checking::law_total(g, r, w.ra@, w.val@, w.inc@);
    access::law_access_sum(access::written(wr), k, access::values::<F>(wr, k), r);
    access::law_write_sum::<F>(wr, k, r);
    let ra = w.ra@;
    let val = w.val@;
    let eq = poly::broadcast_column(poly::eq_table(r), ra.len());
    let all = poly::broadcast_column(w.inc@, ra.len());
    let fr = |i: int| eq[i].times(ra[i]).times(val[i]);
    let fr2 = |i: int| eq[i].times(ra[i].times(val[i]));
    assert forall|i: int| 0 <= i < n implies #[trigger] fr(i) == fr2(i) by {
        F::law_times_assoc(eq[i], ra[i], val[i]);
    }
    sums::lemma_sum_ext(n, fr, fr2);
    let fw = |i: int| eq[i].times(ra[i]).times(val[i].plus(all[i]));
    let fw2 = |i: int| eq[i].times(ra[i].times(all[i].plus(val[i])));
    assert forall|i: int| 0 <= i < n implies #[trigger] fw(i) == fw2(i) by {
        F::law_plus_comm(val[i], all[i]);
        F::law_times_assoc(eq[i], ra[i], val[i].plus(all[i]));
    }
    sums::lemma_sum_ext(n, fw, fw2);
}

/// The value claims of a simulation are the sums of its increments: the value check starts from a
/// true claim.
pub proof fn law_value_relation<F: Field>(
    w: RamWitness<F>,
    trace: Seq<CycleRow>,
    k: nat,
    g: F,
    r_address: Seq<F>,
    r_cycle: Seq<F>,
)
    requires
        w.simulates(trace, k),
        r_address.len() == w.log_k,
        r_cycle.len() == w.log_t,
    ensures
        val_check::table(
            g,
            r_cycle,
            w.inc@,
            access::at_address(w.ra@, r_address, pow2(r_cycle.len())),
        ).total() == poly::mle(w.val@, r_address + r_cycle).plus(
            g.times(poly::mle(w.val_final@, r_address)),
        ),
{
    let t = bits::cover(trace.len());
    let wr = writes(trace, t);
    let wa = access::at_address(w.ra@, r_address, pow2(r_cycle.len()));
    access::law_values_from_increments(wr, r_address, r_cycle);
    access::law_final_values_from_increments(wr, r_address);
    val_check::law_total(g, r_cycle, w.inc@, wa);
    sums::lemma_sum_ext(
        t as int,
        |j: int| w.inc@[j].times(wa[j]).times(poly::lt_table(r_cycle)[j]),
        |i: int|
            access::increments::<F>(wr)[i].times(
                access::at_address(
                    access::one_hot::<F>(access::written(wr), pow2(r_address.len())),
                    r_address,
                    wr.len(),
                )[i],
            ).times(poly::lt_table(r_cycle)[i]),
    );
    sums::lemma_sum_ext(
        t as int,
        |j: int| w.inc@[j].times(wa[j]),
        |i: int|
            access::increments::<F>(wr)[i].times(
                access::at_address(
                    access::one_hot::<F>(access::written(wr), pow2(r_address.len())),
                    r_address,
                    wr.len(),
                )[i],
            ),
    );
}

/// Each word is zero before the first cycle, a cycle adds its increment to the word it accesses and
/// leaves every other word as it is, and what the last cycle leaves is the final memory.
pub proof fn law_memory_steps<F: Field>(
    w: RamWitness<F>,
    trace: Seq<CycleRow>,
    k: nat,
    a: int,
    j: int,
)
    requires
        w.simulates(trace, k),
        0 <= a < k,
        0 <= j < pow2(w.log_t as nat),
    ensures
        w.steps(a, j),
{
    access::law_cell_steps::<F>(writes(trace, bits::cover(trace.len())), k, a, j);
}

/// The values a cycle finds and leaves are sums over the words of the access indicator times the
/// value, and of the access indicator times the value with the increment.
pub proof fn law_memory_accesses<F: Field>(
    w: RamWitness<F>,
    trace: Seq<CycleRow>,
    k: nat,
    j: int,
)
    requires
        w.simulates(trace, k),
        addresses_fit(trace, k as int),
        0 <= j < pow2(w.log_t as nat),
    ensures
        ({
            let t = pow2(w.log_t as nat);
            &&& w.ram_read_value@[j] == sums::sum(
                k as int,
                |a: int| w.ra@[a * t + j].times(w.val@[a * t + j]),
            )
            &&& w.ram_write_value@[j] == sums::sum(
                k as int,
                |a: int| w.ra@[a * t + j].times(w.val@[a * t + j].plus(w.inc@[j])),
            )
        }),
{
    let t = bits::cover(trace.len());
    let wr = writes(trace, t);
    let v = access::values::<F>(wr, k);
    let sel = access::written(wr);
    lemma_fits(trace, k as int, t);
    access::lemma_values_valid::<F>(wr, k);
    access::law_read_as_sum(sel, k, v, j);
    access::law_write_as_sum::<F>(wr, k, j);
    sums::lemma_sum_ext(
        k as int,
        |a: int| access::one_hot::<F>(sel, k)[a * sel.len() + j].times(v[a * sel.len() + j]),
        |a: int| w.ra@[a * t + j].times(w.val@[a * t + j]),
    );
    sums::lemma_sum_ext(
        k as int,
        |a: int|
            access::one_hot::<F>(sel, k)[a * wr.len() + j].times(
                v[a * wr.len() + j].plus(access::increments::<F>(wr)[j]),
            ),
        |a: int| w.ra@[a * t + j].times(w.val@[a * t + j].plus(w.inc@[j])),
    );
}

/// A cycle without an access, a padding cycle among them, finds and leaves nothing, and leaves every
/// word as it is.
pub proof fn law_idle<F: Field>(w: RamWitness<F>, trace: Seq<CycleRow>, k: nat, a: int, j: int)
    requires
        w.simulates(trace, k),
        0 <= a < k,
        0 <= j < pow2(w.log_t as nat),
        j < trace.len() ==> trace[j].ram_access_address is None,
    ensures
        w.idle(a, j),
{
    let t = pow2(w.log_t as nat);
    let wr = writes(trace, t);
    access::lemma_one_hot_entry::<F>(access::written(wr), k, a, j);
    law_memory_steps(w, trace, k, a, j);
    access::lemma_values_valid::<F>(wr, k);
    poly::lemma_cell_in_range(a, j, k as int, t as int);
    field::lemma_zero_times(F::of_int(0));
    F::law_plus_zero(w.val@[a * t + j]);
}

/// A simulation of a memory is coherent.
pub proof fn law_coherent<F: Field>(w: RamWitness<F>, trace: Seq<CycleRow>, k: nat)
    requires
        w.simulates(trace, k),
        addresses_fit(trace, k as int),
    ensures
        w.coherent(trace),
{
    let t = pow2(w.log_t as nat);
    let wr = writes(trace, t);
    lemma_fits(trace, k as int, t);
    assert forall|a: int, j: int| 0 <= a < k && 0 <= j < t implies #[trigger] w.steps(a, j) by {
        law_memory_steps(w, trace, k, a, j);
    }
    assert forall|j: int| 0 <= j < t implies #[trigger] w.accesses(j) by {
        law_memory_accesses(w, trace, k, j);
        access::law_one_hot_marks::<F>(access::written(wr), k, j);
        assert(w.inc_i128@[j] == access::increment(wr, j));
    }
    assert forall|a: int, j: int| 0 <= a < k && 0 <= j < t implies #[trigger] w.marks(
        trace,
        a,
        j,
    ) by {
        access::lemma_one_hot_entry::<F>(access::written(wr), k, a, j);
    }
    assert forall|a: int, j: int|
        0 <= a < k && 0 <= j < t && (j < trace.len() ==> trace[j].ram_access_address is None)
        implies #[trigger] w.idle(a, j) by {
        law_idle(w, trace, k, a, j);
    }
}

/// The value column and the final memory hold what the simulation holds.
proof fn lemma_value_cell<F: Field>(
    w: RamWitness<F>,
    trace: Seq<CycleRow>,
    k: nat,
    a: int,
    j: int,
)
    requires
        w.simulates(trace, k),
        0 <= a < k,
        0 <= j <= pow2(w.log_t as nat),
    ensures
        ({
            let t = pow2(w.log_t as nat);
            let held = F::of_int(access::value_before(writes(trace, t), a, j));
            &&& j < t ==> w.val@[a * t + j] == held
            &&& j == t ==> w.val_final@[a] == held
        }),
{
    let t = pow2(w.log_t as nat);
    if j < t {
        poly::lemma_cell_in_range(a, j, k as int, t as int);
        poly::lemma_block_index(a, t as int, j);
    }
}

/// A cycle that accesses memory finds the word held at the address that its row of the trace names.
/// It leaves there the value that the row writes, and where the row writes none, the word it found.
/// That is the write value of the cycle, the word found with the increment, and the word held before
/// the next cycle, or at the end after the last. Every other word is held on.
pub proof fn law_word_left<F: Field>(w: RamWitness<F>, trace: Seq<CycleRow>, k: nat, j: int)
    requires
        w.simulates(trace, k),
        addresses_fit(trace, k as int),
        0 <= j < trace.len(),
        trace[j].ram_access_address is Some,
    ensures
        ({
            let t = pow2(w.log_t as nat);
            let address = trace[j].ram_access_address->0 as int;
            let left = match trace[j].ram_write_value {
                Some(v) => F::of_int(v as int),
                None => w.val@[address * t + j],
            };
            &&& j < t
            &&& w.ram_read_value@[j] == w.val@[address * t + j]
            &&& w.ram_write_value@[j] == left
            &&& w.val@[address * t + j].plus(w.inc@[j]) == left
            &&& j + 1 < t ==> w.val@[address * t + (j + 1)] == left
            &&& j + 1 == t ==> w.val_final@[address] == left
            &&& forall|a: int|
                0 <= a < k ==> #[trigger] w.ra@[a * t + j] == F::of_int(
                    if a == address {
                        1
                    } else {
                        0
                    },
                )
            &&& forall|a: int|
                0 <= a < k && a != address && j + 1 < t ==> #[trigger] w.val@[a * t + (j + 1)]
                    == w.val@[a * t + j]
            &&& forall|a: int|
                0 <= a < k && a != address && j + 1 == t ==> #[trigger] w.val_final@[a]
                    == w.val@[a * t + j]
        }),
{
    let t = pow2(w.log_t as nat);
    let wr = writes(trace, t);
    let address = trace[j].ram_access_address->0 as int;
    bits::law_cover(trace.len());
    lemma_state(trace, t, address, j);
    assert(wr[j] == Some((address, post(trace, j))));
    lemma_value_cell(w, trace, k, address, j);
    lemma_value_cell(w, trace, k, address, j + 1);
    F::law_of_int_plus(access::value_before(wr, address, j), access::increment(wr, j));
    assert forall|a: int| 0 <= a < k implies #[trigger] w.ra@[a * t + j] == F::of_int(
        if a == address {
            1
        } else {
            0
        },
    ) by {
        access::lemma_one_hot_entry::<F>(access::written(wr), k, a, j);
    }
    assert forall|a: int|
        0 <= a < k && a != address && j + 1 < t implies #[trigger] w.val@[a * t + (j + 1)]
        == w.val@[a * t + j] by {
        lemma_value_cell(w, trace, k, a, j);
        lemma_value_cell(w, trace, k, a, j + 1);
    }
    assert forall|a: int| 0 <= a < k && a != address && j + 1 == t implies #[trigger] w.val_final@[a]
        == w.val@[a * t + j] by {
        lemma_value_cell(w, trace, k, a, j);
        lemma_value_cell(w, trace, k, a, j + 1);
    }
}

/// The last value that a row of the trace writes to an address is the word held there: it is what
/// later cycles find, and at the end what the final memory holds. The integer increment of a later
/// write is the difference of the two values.
pub proof fn law_last_written<F: Field>(
    w: RamWitness<F>,
    trace: Seq<CycleRow>,
    k: nat,
    i: int,
    j: int,
)
    requires
        w.simulates(trace, k),
        addresses_fit(trace, k as int),
        0 <= i < j <= pow2(w.log_t as nat),
        i < trace.len(),
        trace[i].ram_access_address is Some,
        trace[i].ram_write_value is Some,
        forall|m: int|
            i < m < j && m < trace.len() && (#[trigger] trace[m]).ram_write_value is Some
                ==> trace[m].ram_access_address != trace[i].ram_access_address,
    ensures
        ({
            let t = pow2(w.log_t as nat);
            let address = trace[i].ram_access_address->0 as int;
            let value = trace[i].ram_write_value->0;
            &&& j < t ==> w.val@[address * t + j] == F::of_int(value as int)
            &&& j == t ==> w.val_final@[address] == F::of_int(value as int)
            &&& j < trace.len() && trace[j].ram_access_address == trace[i].ram_access_address ==> {
                &&& w.ram_read_value@[j] == F::of_int(value as int)
                &&& trace[j].ram_write_value is Some ==> w.inc_i128@[j]
                    == trace[j].ram_write_value->0 - value
                &&& trace[j].ram_write_value is None ==> w.inc_i128@[j] == 0
            }
        }),
{
    let t = pow2(w.log_t as nat);
    let wr = writes(trace, t);
    let address = trace[i].ram_access_address->0 as int;
    bits::law_cover(trace.len());
    lemma_held(trace, t, i, j);
    lemma_value_cell(w, trace, k, address, j);
    if j < trace.len() && trace[j].ram_access_address == trace[i].ram_access_address {
        law_word_left(w, trace, k, j);
        lemma_state(trace, t, address, j);
        assert(w.inc_i128@[j] == access::increment(wr, j));
        assert(wr[j] == Some((address, post(trace, j))));
    }
}

/// What a row writes stays until the next write to its address.
proof fn lemma_held(trace: Seq<CycleRow>, t: nat, i: int, j: int)
    requires
        0 <= i < j <= t,
        i < trace.len() <= t,
        trace[i].ram_access_address is Some,
        trace[i].ram_write_value is Some,
        forall|m: int|
            i < m < j && m < trace.len() && (#[trigger] trace[m]).ram_write_value is Some
                ==> trace[m].ram_access_address != trace[i].ram_access_address,
    ensures
        access::value_before(writes(trace, t), trace[i].ram_access_address->0 as int, j)
            == trace[i].ram_write_value->0,
    decreases j,
{
    let address = trace[i].ram_access_address->0 as int;
    let wr = writes(trace, t);
    if i == j - 1 {
        assert(wr[i] == Some((address, post(trace, i))));
    } else {
        lemma_held(trace, t, i, j - 1);
        lemma_state(trace, t, address, j - 1);
        if j - 1 < trace.len() && trace[j - 1].ram_access_address is Some {
            assert(wr[j - 1] == Some(
                (trace[j - 1].ram_access_address->0 as int, post(trace, j - 1)),
            ));
        } else {
            assert(wr[j - 1] is None);
        }
    }
}

/// A word that no row of the trace has written is zero: later cycles find zero there, and at the end
/// the final memory holds zero. The integer increment of the first write is the value written.
pub proof fn law_never_written<F: Field>(
    w: RamWitness<F>,
    trace: Seq<CycleRow>,
    k: nat,
    address: int,
    j: int,
)
    requires
        w.simulates(trace, k),
        addresses_fit(trace, k as int),
        0 <= address < k,
        0 <= j <= pow2(w.log_t as nat),
        forall|m: int|
            0 <= m < j && m < trace.len() && (#[trigger] trace[m]).ram_write_value is Some
                && trace[m].ram_access_address is Some ==> trace[m].ram_access_address->0
                != address,
    ensures
        ({
            let t = pow2(w.log_t as nat);
            &&& j < t ==> w.val@[address * t + j] == F::of_int(0)
            &&& j == t ==> w.val_final@[address] == F::of_int(0)
            &&& j < trace.len() && trace[j].ram_access_address is Some
                && trace[j].ram_access_address->0 == address ==> {
                &&& w.ram_read_value@[j] == F::of_int(0)
                &&& trace[j].ram_write_value is Some ==> w.inc_i128@[j]
                    == trace[j].ram_write_value->0
                &&& trace[j].ram_write_value is None ==> w.inc_i128@[j] == 0
            }
        }),
{
    let t = pow2(w.log_t as nat);
    let wr = writes(trace, t);
    bits::law_cover(trace.len());
    lemma_untouched(trace, t, address, j);
    lemma_value_cell(w, trace, k, address, j);
    if j < trace.len() && trace[j].ram_access_address is Some && trace[j].ram_access_address->0
        == address {
        law_word_left(w, trace, k, j);
        lemma_state(trace, t, address, j);
        assert(w.inc_i128@[j] == access::increment(wr, j));
        assert(wr[j] == Some((address, post(trace, j))));
    }
}

/// What no row writes stays zero.
proof fn lemma_untouched(trace: Seq<CycleRow>, t: nat, address: int, j: int)
    requires
        0 <= j <= t,
        trace.len() <= t,
        forall|m: int|
            0 <= m < j && m < trace.len() && (#[trigger] trace[m]).ram_write_value is Some
                && trace[m].ram_access_address is Some ==> trace[m].ram_access_address->0
                != address,
    ensures
        access::value_before(writes(trace, t), address, j) == 0,
    decreases j,
{
    let wr = writes(trace, t);
    if j > 0 {
        lemma_untouched(trace, t, address, j - 1);
        lemma_state(trace, t, address, j - 1);
        if j - 1 < trace.len() && trace[j - 1].ram_access_address is Some {
            assert(wr[j - 1] == Some(
                (trace[j - 1].ram_access_address->0 as int, post(trace, j - 1)),
            ));
        } else {
            assert(wr[j - 1] is None);
        }
    }
}

} // verus!
