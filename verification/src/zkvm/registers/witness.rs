//! The register file over time.
//!
//! The columns are a simulation of the register file: the trace supplies the register numbers and
//! the values written, and every value read is the one the simulation holds.

use crate::field;
use crate::field::Field;
use crate::framework::bits;
use crate::framework::poly;
use crate::framework::sums;
use crate::zkvm::access;
use crate::zkvm::registers::read_write_checking;
use crate::zkvm::registers::read_write_checking::Matrices;
use crate::zkvm::registers::val_evaluation;
use crate::zkvm::trace::CycleRow;
use vstd::arithmetic::power2::pow2;
use vstd::prelude::*;

verus! {

/// The register columns of a trace.
#[derive(Debug)]
pub struct RegisterWitness<F> {
    /// The number of bits of a register number.
    pub log_k: usize,
    /// The number of bits of a cycle number.
    pub log_t: usize,
    /// The first register read, one-hot and register-major.
    pub ra1: Vec<F>,
    /// The second register read, one-hot and register-major.
    pub ra2: Vec<F>,
    /// The register written, one-hot and register-major.
    pub wa: Vec<F>,
    /// The value of each register before each cycle, register-major.
    pub val: Vec<F>,
    /// By how much each cycle changes the register it writes.
    pub inc: Vec<F>,
    /// The value each cycle writes.
    pub rd_write_value: Vec<F>,
    /// The value of the first register each cycle reads.
    pub rs1_value: Vec<F>,
    /// The value of the second register each cycle reads.
    pub rs2_value: Vec<F>,
}

/// The first registers read by `t` cycles.
pub open spec fn reads1(trace: Seq<CycleRow>, t: nat) -> Seq<Option<int>> {
    Seq::new(
        t,
        |j: int|
            if j < trace.len() {
                match trace[j].rs1_read {
                    Some((r, _)) => Some(r as int),
                    None => None,
                }
            } else {
                None
            },
    )
}

/// The second registers read by `t` cycles.
pub open spec fn reads2(trace: Seq<CycleRow>, t: nat) -> Seq<Option<int>> {
    Seq::new(
        t,
        |j: int|
            if j < trace.len() {
                match trace[j].rs2_read {
                    Some((r, _)) => Some(r as int),
                    None => None,
                }
            } else {
                None
            },
    )
}

/// The registers written by `t` cycles, with the values written.
pub open spec fn writes(trace: Seq<CycleRow>, t: nat) -> Seq<Option<(int, int)>> {
    Seq::new(
        t,
        |j: int|
            if j < trace.len() {
                match trace[j].rd_write {
                    Some((r, _, post)) => Some((r as int, post as int)),
                    None => None,
                }
            } else {
                None
            },
    )
}

/// Every register number of a trace is below `k`.
pub open spec fn registers_fit(trace: Seq<CycleRow>, k: int) -> bool {
    forall|j: int|
        0 <= j < trace.len() ==> {
            &&& match (#[trigger] trace[j]).rs1_read {
                Some((r, _)) => r < k,
                None => true,
            }
            &&& match trace[j].rs2_read {
                Some((r, _)) => r < k,
                None => true,
            }
            &&& match trace[j].rd_write {
                Some((r, _, _)) => r < k,
                None => true,
            }
        }
}

impl<F: Field> RegisterWitness<F> {
    /// The columns are those of `k` registers and the padded trace.
    pub open spec fn simulates(self, trace: Seq<CycleRow>, k: nat) -> bool {
        let t = bits::cover(trace.len());
        let w = writes(trace, t);
        &&& k == pow2(self.log_k as nat)
        &&& t == pow2(self.log_t as nat)
        &&& self.ra1@ == access::one_hot::<F>(reads1(trace, t), k)
        &&& self.ra2@ == access::one_hot::<F>(reads2(trace, t), k)
        &&& self.wa@ == access::one_hot::<F>(access::written(w), k)
        &&& self.val@ == access::values::<F>(w, k)
        &&& self.inc@ == access::increments::<F>(w)
        &&& self.rd_write_value@ == access::posts::<F>(w)
        &&& self.rs1_value@ == access::read_column(
            reads1(trace, t),
            access::values::<F>(w, k),
        )
        &&& self.rs2_value@ == access::read_column(
            reads2(trace, t),
            access::values::<F>(w, k),
        )
    }

    /// Every column has one entry per cycle, and every matrix one per register and cycle.
    pub open spec fn sized(self) -> bool {
        let t = pow2(self.log_t as nat);
        let k = pow2(self.log_k as nat);
        &&& self.ra1@.len() == k * t
        &&& self.ra2@.len() == k * t
        &&& self.wa@.len() == k * t
        &&& self.val@.len() == k * t
        &&& self.inc@.len() == t
        &&& self.rd_write_value@.len() == t
        &&& self.rs1_value@.len() == t
        &&& self.rs2_value@.len() == t
    }

    /// Register `a` is zero before the first cycle, and cycle `j` adds its increment to the register it
    /// writes.
    pub open spec fn steps(self, a: int, j: int) -> bool {
        let t = pow2(self.log_t as nat);
        &&& self.val@[a * t] == F::of_int(0)
        &&& j + 1 < t ==> self.val@[a * t + (j + 1)] == self.val@[a * t + j].plus(
            self.wa@[a * t + j].times(self.inc@[j]),
        )
    }

    /// The values that cycle `j` reads and writes are sums over the registers, and it marks at most one
    /// register each as read first, read second and written.
    pub open spec fn accesses(self, j: int) -> bool {
        let t = pow2(self.log_t as nat);
        let k = pow2(self.log_k as nat);
        &&& self.rs1_value@[j] == sums::sum(
            k as int,
            |a: int| self.ra1@[a * t + j].times(self.val@[a * t + j]),
        )
        &&& self.rs2_value@[j] == sums::sum(
            k as int,
            |a: int| self.ra2@[a * t + j].times(self.val@[a * t + j]),
        )
        &&& self.rd_write_value@[j] == sums::sum(
            k as int,
            |a: int| self.wa@[a * t + j].times(self.val@[a * t + j].plus(self.inc@[j])),
        )
        &&& access::marks_one(self.ra1@, k, t, j)
        &&& access::marks_one(self.ra2@, k, t, j)
        &&& access::marks_one(self.wa@, k, t, j)
    }

    /// Cycle `j` reads and writes nothing in register `a`, and nothing at all.
    pub open spec fn idle(self, a: int, j: int) -> bool {
        let t = pow2(self.log_t as nat);
        let zero = F::of_int(0);
        &&& self.ra1@[a * t + j] == zero
        &&& self.ra2@[a * t + j] == zero
        &&& self.wa@[a * t + j] == zero
        &&& self.inc@[j] == zero
        &&& self.rd_write_value@[j] == zero
        &&& self.rs1_value@[j] == zero
        &&& self.rs2_value@[j] == zero
        &&& j + 1 < t ==> self.val@[a * t + (j + 1)] == self.val@[a * t + j]
    }

    /// The columns are those of a register file over time: every register changes by what is written
    /// to it, every value read or written is the one the file holds, and the cycles behind the first
    /// `n` are idle.
    pub open spec fn coherent(self, n: nat) -> bool {
        let t = pow2(self.log_t as nat) as int;
        let k = pow2(self.log_k as nat) as int;
        &&& forall|a: int, j: int| 0 <= a < k && 0 <= j < t ==> #[trigger] self.steps(a, j)
        &&& forall|j: int| 0 <= j < t ==> #[trigger] self.accesses(j)
        &&& forall|a: int, j: int| 0 <= a < k && n <= j < t ==> #[trigger] self.idle(a, j)
    }

    /// The matrices and the increments, as the read-write check takes them.
    pub open spec fn matrices(self) -> Matrices<F> {
        Matrices {
            ra1: self.ra1@,
            ra2: self.ra2@,
            wa: self.wa@,
            val: self.val@,
            inc: self.inc@,
        }
    }
}

/// The column of the first `j` values of `whole`, and zeros behind them.
pub open spec fn column_upto<F: Field>(m: Seq<F>, whole: Seq<F>, j: int) -> bool {
    &&& m.len() == whole.len()
    &&& forall|i: int|
        0 <= i < m.len() ==> #[trigger] m[i] == (if i < j {
            whole[i]
        } else {
            F::of_int(0)
        })
}

/// Simulate `register_count` registers over a trace.
pub fn register_witness<F: Field>(
    trace: &[CycleRow],
    register_count: usize,
) -> (r: RegisterWitness<F>)
    requires
        register_count == bits::cover(register_count as nat),
        register_count * bits::cover(trace@.len()) <= usize::MAX,
        registers_fit(trace@, register_count as int),
    ensures
        r.simulates(trace@, register_count as nat),
        r.sized(),
        r.coherent(trace@.len()),
{
    let k: usize = register_count;
    let log_k: usize = bits::log2_ceil(k);
    let n: usize = trace.len();
    let log_t: usize = bits::log2_ceil(n);
    let ghost tt = bits::cover(n as nat);
    proof {
        bits::law_cover(n as nat);
        vstd::arithmetic::power2::lemma_pow2_pos(log_t as nat);
        vstd::arithmetic::power2::lemma_pow2_pos(log_k as nat);
        assert(tt <= k * tt) by (nonlinear_arith)
            requires
                k >= 1,
                tt >= 0,
        ;
    }
    let t: usize = poly::power_of_two(log_t);
    let size: usize = k * t;
    let ghost s1 = reads1(trace@, tt);
    let ghost s2 = reads2(trace@, tt);
    let ghost w = writes(trace@, tt);
    let ghost sw = access::written(w);
    let ghost whole = access::values::<F>(w, k as nat);
    proof {
        lemma_fits(trace@, k as int, tt);
    }
    let mut ra1: Vec<F> = poly::zeros(size);
    let mut ra2: Vec<F> = poly::zeros(size);
    let mut wa: Vec<F> = poly::zeros(size);
    let mut val: Vec<F> = poly::zeros(size);
    let mut inc: Vec<F> = poly::zeros(t);
    let mut rd_write_value: Vec<F> = poly::zeros(t);
    let mut rs1_value: Vec<F> = poly::zeros(t);
    let mut rs2_value: Vec<F> = poly::zeros(t);
    let mut state: Vec<u64> = Vec::new();
    for a in 0..k
        invariant
            state@ == Seq::new(a as nat, |i: int| 0u64),
    {
        state.push(0);
        assert(state@ =~= Seq::new((a + 1) as nat, |i: int| 0u64));
    }
    let ghost incs = access::increments::<F>(w);
    let ghost posts = access::posts::<F>(w);
    let ghost c1 = access::read_column(s1, whole);
    let ghost c2 = access::read_column(s2, whole);
    for j in 0..t
        invariant
            n == trace@.len(),
            n <= t,
            t == tt,
            t > 0,
            k * t <= usize::MAX,
            registers_fit(trace@, k as int),
            s1 == reads1(trace@, tt),
            s2 == reads2(trace@, tt),
            w == writes(trace@, tt),
            sw == access::written(w),
            whole == access::values::<F>(w, k as nat),
            access::fits(s1, k as int),
            access::fits(s2, k as int),
            access::fits(sw, k as int),
            incs == access::increments::<F>(w),
            posts == access::posts::<F>(w),
            c1 == access::read_column(s1, whole),
            c2 == access::read_column(s2, whole),
            state@.len() == k,
            forall|a: int|
                0 <= a < k ==> #[trigger] state@[a] == access::value_before(w, a, j as int),
            ra1@.len() == k * t,
            ra2@.len() == k * t,
            wa@.len() == k * t,
            val@.len() == k * t,
            access::filled(ra1@, access::one_hot::<F>(s1, k as nat), t as int, j as int),
            access::filled(ra2@, access::one_hot::<F>(s2, k as nat), t as int, j as int),
            access::filled(wa@, access::one_hot::<F>(sw, k as nat), t as int, j as int),
            access::filled(val@, whole, t as int, j as int),
            column_upto(inc@, incs, j as int),
            column_upto(rd_write_value@, posts, j as int),
            column_upto(rs1_value@, c1, j as int),
            column_upto(rs2_value@, c2, j as int),
    {
        let ghost val0 = val@;
        access::snapshot(&mut val, &state, t, j);
        proof {
            assert forall|x: int| 0 <= x < val@.len() implies #[trigger] val@[x] == (if x % (
            t as int) < j + 1 {
                whole[x]
            } else {
                F::of_int(0)
            }) by {
                poly::lemma_quotient_in_range(x, k as int, t as int);
                assert(val0[x] == val0[x]);
            }
            access::lemma_mark::<F>(ra1@, s1, k as nat, j as int);
            access::lemma_mark::<F>(ra2@, s2, k as nat, j as int);
            access::lemma_mark::<F>(wa@, sw, k as nat, j as int);
        }
        if j < n {
            let cycle: CycleRow = trace[j];
            if let Some((r1, _)) = cycle.rs1_read {
                let a: usize = r1 as usize;
                access::set_cell(&mut ra1, k, t, a, j, field::one());
                rs1_value.set(j, F::from_u64(state[a]));
                proof {
                    poly::lemma_block_index(a as int, t as int, j as int);
                    poly::lemma_cell_in_range(a as int, j as int, k as int, t as int);
                }
            }
            if let Some((r2, _)) = cycle.rs2_read {
                let a: usize = r2 as usize;
                access::set_cell(&mut ra2, k, t, a, j, field::one());
                rs2_value.set(j, F::from_u64(state[a]));
                proof {
                    poly::lemma_block_index(a as int, t as int, j as int);
                    poly::lemma_cell_in_range(a as int, j as int, k as int, t as int);
                }
            }
            if let Some((rd, _, post)) = cycle.rd_write {
                let a: usize = rd as usize;
                access::set_cell(&mut wa, k, t, a, j, field::one());
                rd_write_value.set(j, F::from_u64(post));
                inc.set(j, F::from_i128(post as i128 - state[a] as i128));
                state.set(a, post);
            }
        }
    }
    proof {
        access::lemma_filled(ra1@, access::one_hot::<F>(s1, k as nat), k as int, t as int);
        access::lemma_filled(ra2@, access::one_hot::<F>(s2, k as nat), k as int, t as int);
        access::lemma_filled(wa@, access::one_hot::<F>(sw, k as nat), k as int, t as int);
        access::lemma_filled(val@, whole, k as int, t as int);
        assert(inc@ =~= incs);
        assert(rd_write_value@ =~= posts);
        assert(rs1_value@ =~= c1);
        assert(rs2_value@ =~= c2);
    }
    let r: RegisterWitness<F> = RegisterWitness {
        log_k,
        log_t,
        ra1,
        ra2,
        wa,
        val,
        inc,
        rd_write_value,
        rs1_value,
        rs2_value,
    };
    proof {
        law_coherent(r, trace@, k as nat);
    }
    r
}

proof fn lemma_fits(trace: Seq<CycleRow>, k: int, t: nat)
    requires
        registers_fit(trace, k),
    ensures
        access::fits(reads1(trace, t), k),
        access::fits(reads2(trace, t), k),
        access::fits(access::written(writes(trace, t)), k),
{
    let s1 = reads1(trace, t);
    let s2 = reads2(trace, t);
    let sw = access::written(writes(trace, t));
    assert forall|j: int| 0 <= j < t && j < trace.len() implies (match #[trigger] s1[j] {
        Some(a) => 0 <= a < k,
        None => true,
    }) && (match s2[j] {
        Some(a) => 0 <= a < k,
        None => true,
    }) && (match sw[j] {
        Some(a) => 0 <= a < k,
        None => true,
    }) by {
        assert(trace[j] == trace[j]);
    }
}

/// Every column of a simulation is canonical.
pub proof fn lemma_witness_valid<F: Field>(w: RegisterWitness<F>, trace: Seq<CycleRow>, k: nat)
    requires
        w.simulates(trace, k),
        registers_fit(trace, k as int),
    ensures
        w.sized(),
        field::all_valid(w.ra1@),
        field::all_valid(w.ra2@),
        field::all_valid(w.wa@),
        field::all_valid(w.val@),
        field::all_valid(w.inc@),
        field::all_valid(w.rd_write_value@),
        field::all_valid(w.rs1_value@),
        field::all_valid(w.rs2_value@),
{
    let t = bits::cover(trace.len());
    let wr = writes(trace, t);
    access::lemma_one_hot_valid::<F>(reads1(trace, t), k);
    access::lemma_one_hot_valid::<F>(reads2(trace, t), k);
    access::lemma_one_hot_valid::<F>(access::written(wr), k);
    access::lemma_values_valid::<F>(wr, k);
    lemma_fits(trace, k as int, t);
    access::lemma_read_column_valid(reads1(trace, t), access::values::<F>(wr, k), k);
    access::lemma_read_column_valid(reads2(trace, t), access::values::<F>(wr, k), k);
}

/// Each register is zero before the first cycle, and a cycle adds its increment to the register it
/// writes and leaves every other register as it is.
pub proof fn law_register_steps<F: Field>(
    w: RegisterWitness<F>,
    trace: Seq<CycleRow>,
    k: nat,
    a: int,
    j: int,
)
    requires
        w.simulates(trace, k),
        0 <= a < k,
        0 <= j < pow2(w.log_t as nat),
    ensures
        w.steps(a, j),
{
    access::law_cell_steps::<F>(writes(trace, bits::cover(trace.len())), k, a, j);
}

/// The values a cycle reads and writes are sums over the registers: of the read indicator times the
/// value, and of the write indicator times the value with the increment.
pub proof fn law_register_accesses<F: Field>(
    w: RegisterWitness<F>,
    trace: Seq<CycleRow>,
    k: nat,
    j: int,
)
    requires
        w.simulates(trace, k),
        registers_fit(trace, k as int),
        0 <= j < pow2(w.log_t as nat),
    ensures
        ({
            let t = pow2(w.log_t as nat);
            &&& w.rs1_value@[j] == sums::sum(
                k as int,
                |a: int| w.ra1@[a * t + j].times(w.val@[a * t + j]),
            )
            &&& w.rs2_value@[j] == sums::sum(
                k as int,
                |a: int| w.ra2@[a * t + j].times(w.val@[a * t + j]),
            )
            &&& w.rd_write_value@[j] == sums::sum(
                k as int,
                |a: int| w.wa@[a * t + j].times(w.val@[a * t + j].plus(w.inc@[j])),
            )
        }),
{
    let t = bits::cover(trace.len());
    let wr = writes(trace, t);
    let v = access::values::<F>(wr, k);
    let s1 = reads1(trace, t);
    let s2 = reads2(trace, t);
    lemma_fits(trace, k as int, t);
    access::lemma_values_valid::<F>(wr, k);
    access::law_read_as_sum(s1, k, v, j);
    access::law_read_as_sum(s2, k, v, j);
    access::law_write_as_sum::<F>(wr, k, j);
    sums::lemma_sum_ext(
        k as int,
        |a: int| access::one_hot::<F>(s1, k)[a * s1.len() + j].times(v[a * s1.len() + j]),
        |a: int| w.ra1@[a * t + j].times(w.val@[a * t + j]),
    );
    sums::lemma_sum_ext(
        k as int,
        |a: int| access::one_hot::<F>(s2, k)[a * s2.len() + j].times(v[a * s2.len() + j]),
        |a: int| w.ra2@[a * t + j].times(w.val@[a * t + j]),
    );
    sums::lemma_sum_ext(
        k as int,
        |a: int|
            access::one_hot::<F>(access::written(wr), k)[a * wr.len() + j].times(
                v[a * wr.len() + j].plus(access::increments::<F>(wr)[j]),
            ),
        |a: int| w.wa@[a * t + j].times(w.val@[a * t + j].plus(w.inc@[j])),
    );
}

/// The simulation satisfies the read-write relation: its sums are the extensions of the value
/// columns, so the batch of the three value claims is what the read-write check sums to.
pub proof fn law_read_write_relation<F: Field>(
    w: RegisterWitness<F>,
    trace: Seq<CycleRow>,
    k: nat,
    g: F,
    r: Seq<F>,
)
    requires
        w.simulates(trace, k),
        registers_fit(trace, k as int),
        r.len() == w.log_t,
    ensures
        read_write_checking::table(g, g.times(g), r, w.matrices()).total()
            == read_write_checking::batch(
            g,
            poly::mle(w.rd_write_value@, r),
            poly::mle(w.rs1_value@, r),
            poly::mle(w.rs2_value@, r),
        ),
{
    let t = bits::cover(trace.len());
    let wr = writes(trace, t);
    let m = w.matrices();
    lemma_fits(trace, k as int, t);
    access::lemma_values_valid::<F>(wr, k);
    read_write_checking::law_total(g, r, m);
    access::law_access_sum(reads1(trace, t), k, access::values::<F>(wr, k), r);
    access::law_access_sum(reads2(trace, t), k, access::values::<F>(wr, k), r);
    access::law_write_sum::<F>(wr, k, r);
    let n = k * t;
    let eq = poly::broadcast_column(poly::eq_table(r), n);
    let all = poly::broadcast_column(m.inc, n);
    sums::lemma_sum_ext(
        n as int,
        |i: int| eq[i].times(m.ra1[i].times(m.val[i])),
        |x: int|
            poly::broadcast_column(poly::eq_table(r), m.val.len())[x].times(
                access::one_hot::<F>(reads1(trace, t), k)[x].times(m.val[x]),
            ),
    );
}

/// The value claim of a simulation is the sum of the increments before the cycle point: the value
/// evaluation starts from a true claim.
pub proof fn law_value_relation<F: Field>(
    w: RegisterWitness<F>,
    trace: Seq<CycleRow>,
    k: nat,
    r_address: Seq<F>,
    r_cycle: Seq<F>,
)
    requires
        w.simulates(trace, k),
        r_address.len() == w.log_k,
        r_cycle.len() == w.log_t,
    ensures
        val_evaluation::table(
            r_cycle,
            w.inc@,
            access::at_address(w.wa@, r_address, pow2(r_cycle.len())),
        ).total() == poly::mle(w.val@, r_address + r_cycle),
{
    let t = bits::cover(trace.len());
    let wr = writes(trace, t);
    let wa = access::at_address(w.wa@, r_address, pow2(r_cycle.len()));
    access::law_values_from_increments(wr, r_address, r_cycle);
    val_evaluation::law_total(r_cycle, w.inc@, wa);
    sums::lemma_sum_ext(
        t as int,
        |j: int| w.inc@[j].times(wa[j]).times(poly::lt_table(r_cycle)[j]),
        |i: int|
            access::increments::<F>(wr)[i].times(
                access::at_address(
                    access::one_hot::<F>(access::written(wr), pow2(r_address.len())),
                    r_address,
                    wr.len(),
                )[i],
            ).times(poly::lt_table(r_cycle)[i]),
    );
}

/// A padding cycle reads and writes nothing, and leaves every register as it is.
pub proof fn law_padding<F: Field>(
    w: RegisterWitness<F>,
    trace: Seq<CycleRow>,
    k: nat,
    a: int,
    j: int,
)
    requires
        w.simulates(trace, k),
        0 <= a < k,
        trace.len() <= j < pow2(w.log_t as nat),
    ensures
        w.idle(a, j),
{
    let t = pow2(w.log_t as nat);
    let wr = writes(trace, t);
    access::lemma_one_hot_entry::<F>(reads1(trace, t), k, a, j);
    access::lemma_one_hot_entry::<F>(reads2(trace, t), k, a, j);
    access::lemma_one_hot_entry::<F>(access::written(wr), k, a, j);
    law_register_steps(w, trace, k, a, j);
    access::lemma_values_valid::<F>(wr, k);
    poly::lemma_cell_in_range(a, j, k as int, t as int);
    field::lemma_zero_times(F::of_int(0));
    F::law_plus_zero(w.val@[a * t + j]);
}

/// A simulation of a register file is coherent.
pub proof fn law_coherent<F: Field>(w: RegisterWitness<F>, trace: Seq<CycleRow>, k: nat)
    requires
        w.simulates(trace, k),
        registers_fit(trace, k as int),
    ensures
        w.coherent(trace.len()),
{
    let t = pow2(w.log_t as nat);
    assert forall|a: int, j: int| 0 <= a < k && 0 <= j < t implies #[trigger] w.steps(a, j) by {
        law_register_steps(w, trace, k, a, j);
    }
    assert forall|j: int| 0 <= j < t implies #[trigger] w.accesses(j) by {
        law_register_accesses(w, trace, k, j);
        lemma_fits(trace, k as int, t);
        access::law_one_hot_marks::<F>(reads1(trace, t), k, j);
        access::law_one_hot_marks::<F>(reads2(trace, t), k, j);
        access::law_one_hot_marks::<F>(access::written(writes(trace, t)), k, j);
    }
    assert forall|a: int, j: int| 0 <= a < k && trace.len() <= j < t implies #[trigger] w.idle(
        a,
        j,
    ) by {
        law_padding(w, trace, k, a, j);
    }
}

/// The value column holds what the simulation holds.
proof fn lemma_value_cell<F: Field>(
    w: RegisterWitness<F>,
    trace: Seq<CycleRow>,
    k: nat,
    a: int,
    j: int,
)
    requires
        w.simulates(trace, k),
        0 <= a < k,
        0 <= j < pow2(w.log_t as nat),
    ensures
        w.val@[a * pow2(w.log_t as nat) + j] == F::of_int(
            access::value_before(writes(trace, pow2(w.log_t as nat)), a, j),
        ),
{
    let t = pow2(w.log_t as nat);
    poly::lemma_cell_in_range(a, j, k as int, t as int);
    poly::lemma_block_index(a, t as int, j);
}

/// A cycle that writes a register marks that register and no other as written, its write value is
/// the value that its row of the trace leaves, and so is the value it found with the increment. The
/// register holds that value before the next cycle, and every other register holds what it held.
pub proof fn law_register_written<F: Field>(
    w: RegisterWitness<F>,
    trace: Seq<CycleRow>,
    k: nat,
    j: int,
)
    requires
        w.simulates(trace, k),
        registers_fit(trace, k as int),
        0 <= j < trace.len(),
        trace[j].rd_write is Some,
    ensures
        ({
            let t = pow2(w.log_t as nat);
            let rd = (trace[j].rd_write->0).0 as int;
            let left = F::of_int((trace[j].rd_write->0).2 as int);
            &&& j < t
            &&& w.rd_write_value@[j] == left
            &&& w.val@[rd * t + j].plus(w.inc@[j]) == left
            &&& j + 1 < t ==> w.val@[rd * t + (j + 1)] == left
            &&& forall|a: int|
                0 <= a < k ==> #[trigger] w.wa@[a * t + j] == F::of_int(
                    if a == rd {
                        1
                    } else {
                        0
                    },
                )
            &&& forall|a: int|
                0 <= a < k && a != rd && j + 1 < t ==> #[trigger] w.val@[a * t + (j + 1)]
                    == w.val@[a * t + j]
        }),
{
    let t = pow2(w.log_t as nat);
    let wr = writes(trace, t);
    let rd = (trace[j].rd_write->0).0 as int;
    let left = (trace[j].rd_write->0).2 as int;
    bits::law_cover(trace.len());
    assert(wr[j] == Some((rd, left)));
    lemma_value_cell(w, trace, k, rd, j);
    F::law_of_int_plus(access::value_before(wr, rd, j), access::increment(wr, j));
    if j + 1 < t {
        lemma_value_cell(w, trace, k, rd, j + 1);
    }
    assert forall|a: int| 0 <= a < k implies #[trigger] w.wa@[a * t + j] == F::of_int(
        if a == rd {
            1
        } else {
            0
        },
    ) by {
        access::lemma_one_hot_entry::<F>(access::written(wr), k, a, j);
    }
    assert forall|a: int| 0 <= a < k && a != rd && j + 1 < t implies #[trigger] w.val@[a * t + (j
        + 1)] == w.val@[a * t + j] by {
        lemma_value_cell(w, trace, k, a, j);
        lemma_value_cell(w, trace, k, a, j + 1);
    }
}

/// A cycle that writes no register marks none as written, and every register holds before the next
/// cycle what it held.
pub proof fn law_register_kept<F: Field>(
    w: RegisterWitness<F>,
    trace: Seq<CycleRow>,
    k: nat,
    j: int,
)
    requires
        w.simulates(trace, k),
        0 <= j < pow2(w.log_t as nat),
        j < trace.len() ==> trace[j].rd_write is None,
    ensures
        ({
            let t = pow2(w.log_t as nat);
            &&& w.rd_write_value@[j] == F::of_int(0)
            &&& w.inc@[j] == F::of_int(0)
            &&& forall|a: int| 0 <= a < k ==> #[trigger] w.wa@[a * t + j] == F::of_int(0)
            &&& forall|a: int|
                0 <= a < k && j + 1 < t ==> #[trigger] w.val@[a * t + (j + 1)] == w.val@[a * t
                    + j]
        }),
{
    let t = pow2(w.log_t as nat);
    let wr = writes(trace, t);
    assert(wr[j] is None);
    assert forall|a: int| 0 <= a < k implies #[trigger] w.wa@[a * t + j] == F::of_int(0) by {
        access::lemma_one_hot_entry::<F>(access::written(wr), k, a, j);
    }
    assert forall|a: int| 0 <= a < k && j + 1 < t implies #[trigger] w.val@[a * t + (j + 1)]
        == w.val@[a * t + j] by {
        lemma_value_cell(w, trace, k, a, j);
        lemma_value_cell(w, trace, k, a, j + 1);
    }
}

/// A cycle that reads registers marks, as read first and as read second, the registers that its row
/// of the trace names and no other, and the values read are those that these registers hold. Where
/// it reads none, nothing is marked and the value is zero.
pub proof fn law_register_read<F: Field>(
    w: RegisterWitness<F>,
    trace: Seq<CycleRow>,
    k: nat,
    j: int,
)
    requires
        w.simulates(trace, k),
        registers_fit(trace, k as int),
        0 <= j < trace.len(),
    ensures
        ({
            let t = pow2(w.log_t as nat);
            &&& j < t
            &&& match trace[j].rs1_read {
                Some((r, _)) => w.rs1_value@[j] == w.val@[r * t + j],
                None => w.rs1_value@[j] == F::of_int(0),
            }
            &&& match trace[j].rs2_read {
                Some((r, _)) => w.rs2_value@[j] == w.val@[r * t + j],
                None => w.rs2_value@[j] == F::of_int(0),
            }
            &&& forall|a: int|
                0 <= a < k ==> #[trigger] w.ra1@[a * t + j] == F::of_int(
                    if trace[j].rs1_read is Some && (trace[j].rs1_read->0).0 == a {
                        1
                    } else {
                        0
                    },
                )
            &&& forall|a: int|
                0 <= a < k ==> #[trigger] w.ra2@[a * t + j] == F::of_int(
                    if trace[j].rs2_read is Some && (trace[j].rs2_read->0).0 == a {
                        1
                    } else {
                        0
                    },
                )
        }),
{
    let t = pow2(w.log_t as nat);
    bits::law_cover(trace.len());
    assert forall|a: int| 0 <= a < k implies #[trigger] w.ra1@[a * t + j] == F::of_int(
        if trace[j].rs1_read is Some && (trace[j].rs1_read->0).0 == a {
            1
        } else {
            0
        },
    ) by {
        access::lemma_one_hot_entry::<F>(reads1(trace, t), k, a, j);
    }
    assert forall|a: int| 0 <= a < k implies #[trigger] w.ra2@[a * t + j] == F::of_int(
        if trace[j].rs2_read is Some && (trace[j].rs2_read->0).0 == a {
            1
        } else {
            0
        },
    ) by {
        access::lemma_one_hot_entry::<F>(reads2(trace, t), k, a, j);
    }
}

/// A register holds the last value that a row of the trace leaves in it, and a read of the register
/// returns that value.
pub proof fn law_last_written<F: Field>(
    w: RegisterWitness<F>,
    trace: Seq<CycleRow>,
    k: nat,
    i: int,
    j: int,
)
    requires
        w.simulates(trace, k),
        registers_fit(trace, k as int),
        0 <= i < j < pow2(w.log_t as nat),
        i < trace.len(),
        trace[i].rd_write is Some,
        forall|m: int|
            i < m < j && m < trace.len() && (#[trigger] trace[m]).rd_write is Some
                ==> (trace[m].rd_write->0).0 != (trace[i].rd_write->0).0,
    ensures
        ({
            let rd = (trace[i].rd_write->0).0;
            let left = F::of_int((trace[i].rd_write->0).2 as int);
            &&& w.val@[rd * pow2(w.log_t as nat) + j] == left
            &&& j < trace.len() && trace[j].rs1_read is Some && (trace[j].rs1_read->0).0 == rd
                ==> w.rs1_value@[j] == left
            &&& j < trace.len() && trace[j].rs2_read is Some && (trace[j].rs2_read->0).0 == rd
                ==> w.rs2_value@[j] == left
        }),
    decreases j,
{
    if i == j - 1 {
        law_register_written(w, trace, k, i);
    } else {
        law_last_written(w, trace, k, i, j - 1);
        if j - 1 < trace.len() && trace[j - 1].rd_write is Some {
            law_register_written(w, trace, k, j - 1);
        } else {
            law_register_kept(w, trace, k, j - 1);
        }
    }
    if j < trace.len() {
        law_register_read(w, trace, k, j);
    }
}

/// A register that no row of the trace has written holds zero, and a read of it returns zero.
pub proof fn law_never_written<F: Field>(
    w: RegisterWitness<F>,
    trace: Seq<CycleRow>,
    k: nat,
    r: int,
    j: int,
)
    requires
        w.simulates(trace, k),
        registers_fit(trace, k as int),
        0 <= r < k,
        0 <= j < pow2(w.log_t as nat),
        forall|m: int|
            0 <= m < j && m < trace.len() && (#[trigger] trace[m]).rd_write is Some
                ==> (trace[m].rd_write->0).0 != r,
    ensures
        w.val@[r * pow2(w.log_t as nat) + j] == F::of_int(0),
        j < trace.len() && trace[j].rs1_read is Some && (trace[j].rs1_read->0).0 == r
            ==> w.rs1_value@[j] == F::of_int(0),
        j < trace.len() && trace[j].rs2_read is Some && (trace[j].rs2_read->0).0 == r
            ==> w.rs2_value@[j] == F::of_int(0),
    decreases j,
{
    if j == 0 {
        lemma_value_cell(w, trace, k, r, 0);
    } else {
        law_never_written(w, trace, k, r, j - 1);
        if j - 1 < trace.len() && trace[j - 1].rd_write is Some {
            law_register_written(w, trace, k, j - 1);
        } else {
            law_register_kept(w, trace, k, j - 1);
        }
    }
    if j < trace.len() {
        law_register_read(w, trace, k, j);
    }
}

} // verus!
