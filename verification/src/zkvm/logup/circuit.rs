//! The circuit that adds fractions in pairs.
//!
//! A gate holds a numerator and a denominator. A gate of one level adds the two gates below it, so
//! the root is the sum of all leaf fractions.

use crate::field;
use crate::field::Field;
use crate::framework::poly;
use crate::framework::sums;
use vstd::arithmetic::power2::pow2;
use vstd::prelude::*;

verus! {

/// A numerator and a denominator.
pub type Gate<F> = (F, F);

/// The sum of two fractions.
pub open spec fn add_fractions<F: Field>(a: Gate<F>, b: Gate<F>) -> Gate<F> {
    (a.0.times(b.1).plus(b.0.times(a.1)), a.1.times(b.1))
}

/// The level above a level: neighbouring gates are added.
pub open spec fn level_above<F: Field>(gates: Seq<Gate<F>>) -> Seq<Gate<F>> {
    Seq::new(gates.len() / 2, |i: int| add_fractions(gates[2 * i], gates[2 * i + 1]))
}

/// The leaves of given numerators and denominators.
pub open spec fn leaves<F: Field>(num: Seq<F>, den: Seq<F>) -> Seq<Gate<F>> {
    Seq::new(num.len(), |i: int| (num[i], den[i]))
}

/// The levels of a circuit of the given depth, the root first.
pub open spec fn pyramid<F: Field>(gates: Seq<Gate<F>>, depth: nat) -> Seq<Seq<Gate<F>>>
    decreases depth,
{
    if depth == 0 {
        seq![gates]
    } else {
        pyramid(level_above(gates), (depth - 1) as nat).push(gates)
    }
}

/// The circuit, stored by levels with the root first.
#[derive(Debug)]
pub struct Circuit<F> {
    levels: Vec<Vec<(F, F)>>,
}

impl<F: Field> View for Circuit<F> {
    type V = Seq<Seq<Gate<F>>>;

    closed spec fn view(&self) -> Seq<Seq<Gate<F>>> {
        Seq::new(self.levels@.len(), |k: int| self.levels@[k]@)
    }
}

pub proof fn lemma_pyramid<F: Field>(gates: Seq<Gate<F>>, depth: nat)
    requires
        gates.len() == pow2(depth),
    ensures
        pyramid(gates, depth).len() == depth + 1,
        pyramid(gates, depth)[depth as int] == gates,
        forall|k: int| 0 <= k <= depth ==> (#[trigger] pyramid(gates, depth)[k]).len() == pow2(k as nat),
        forall|k: int|
            0 < k <= depth ==> pyramid(gates, depth)[k - 1] == #[trigger] level_above(
                pyramid(gates, depth)[k],
            ),
    decreases depth,
{
    poly::lemma_pow2_zero();
    if depth > 0 {
        let up = level_above(gates);
        let d = (depth - 1) as nat;
        poly::lemma_pow2_step(depth);
        lemma_pyramid(up, d);
        let whole = pyramid(gates, depth);
        let upper = pyramid(up, d);
        assert forall|k: int| 0 <= k <= depth implies (#[trigger] whole[k]).len() == pow2(
            k as nat,
        ) by {
            if k < depth {
                assert(whole[k] == upper[k]);
            }
        }
        assert forall|k: int| 0 < k <= depth implies whole[k - 1] == #[trigger] level_above(
            whole[k],
        ) by {
            assert(whole[k - 1] == upper[k - 1]);
            if k < depth {
                assert(whole[k] == upper[k]);
                assert(upper[k - 1] == level_above(upper[k]));
            } else {
                assert(upper[d as int] == up);
            }
        }
    }
}

/// The level above a level.
fn add_pairs<F: Field>(gates: &Vec<(F, F)>) -> (r: Vec<(F, F)>)
    ensures
        r@ == level_above(gates@),
{
    let len: usize = gates.len();
    let n: usize = len / 2;
    let ghost whole = level_above(gates@);
    let mut out: Vec<(F, F)> = Vec::new();
    for i in 0..n
        invariant
            len == gates@.len(),
            n == len / 2,
            whole == level_above(gates@),
            out@ == whole.take(i as int),
    {
        let (nl, dl) = gates[2 * i];
        let (nr, dr) = gates[2 * i + 1];
        out.push((nl.mul(dr).add(nr.mul(dl)), dl.mul(dr)));
        assert(out@ =~= whole.take(i + 1));
    }
    assert(out@ =~= whole);
    out
}

/// The levels of a circuit of the given depth, the root first.
fn build_levels<F: Field>(gates: Vec<(F, F)>, depth: usize) -> (r: Vec<Vec<(F, F)>>)
    ensures
        r@.len() == depth + 1,
        Seq::new(r@.len(), |k: int| r@[k]@) == pyramid(gates@, depth as nat),
    decreases depth,
{
    if depth == 0 {
        let ghost g = gates@;
        let mut out: Vec<Vec<(F, F)>> = Vec::new();
        out.push(gates);
        assert(Seq::new(out@.len(), |k: int| out@[k]@) =~= pyramid(g, 0));
        out
    } else {
        let up: Vec<(F, F)> = add_pairs(&gates);
        let ghost g = gates@;
        let mut out: Vec<Vec<(F, F)>> = build_levels(up, depth - 1);
        let ghost upper = out@;
        out.push(gates);
        assert(Seq::new(out@.len(), |k: int| out@[k]@) =~= Seq::new(
            upper.len(),
            |k: int| upper[k]@,
        ).push(g));
        out
    }
}

impl<F: Field> Circuit<F> {
    /// The circuit over `2^log_size` leaf fractions.
    pub fn build(leaves_num: Vec<F>, leaves_denom: Vec<F>, log_size: usize) -> (r: Self)
        requires
            leaves_num@.len() == pow2(log_size as nat),
            leaves_denom@.len() == pow2(log_size as nat),
        ensures
            r@ == pyramid(leaves(leaves_num@, leaves_denom@), log_size as nat),
    {
        let n: usize = leaves_num.len();
        let ghost whole = leaves(leaves_num@, leaves_denom@);
        let mut gates: Vec<(F, F)> = Vec::new();
        for i in 0..n
            invariant
                n == leaves_num@.len(),
                n == leaves_denom@.len(),
                whole == leaves(leaves_num@, leaves_denom@),
                gates@ == whole.take(i as int),
        {
            gates.push((leaves_num[i], leaves_denom[i]));
            assert(gates@ =~= whole.take(i + 1));
        }
        assert(gates@ =~= whole);
        let levels: Vec<Vec<(F, F)>> = build_levels(gates, log_size);
        let c: Self = Circuit { levels };
        assert(c@ =~= pyramid(whole, log_size as nat));
        c
    }

    /// The root fraction.
    pub fn root(&self) -> (r: (F, F))
        requires
            self@.len() > 0,
            self@[0].len() > 0,
        ensures
            r == self@[0][0],
    {
        self.levels[0][0]
    }

    /// The gates of a level; the root is level 0.
    pub fn level(&self, k: usize) -> (r: &Vec<(F, F)>)
        requires
            k < self@.len(),
        ensures
            r@ == self@[k as int],
    {
        &self.levels[k]
    }

    /// The depth of the leaves.
    pub fn log_size(&self) -> (r: usize)
        requires
            self@.len() > 0,
        ensures
            r == self@.len() - 1,
    {
        self.levels.len() - 1
    }
}

/// A denominator, with one of them replaced by one.
pub open spec fn other<F: Field>(gates: Seq<Gate<F>>, j: int, i: int) -> F {
    if i == j {
        F::of_int(1)
    } else {
        gates[i].1
    }
}

/// The product of all denominators but one.
pub open spec fn except<F: Field>(gates: Seq<Gate<F>>, j: int) -> F {
    sums::product(gates.len() as int, |i: int| other(gates, j, i))
}

/// The sum of fractions over their common denominator.
pub open spec fn total<F: Field>(gates: Seq<Gate<F>>) -> Gate<F> {
    (
        sums::sum(gates.len() as int, |j: int| gates[j].0.times(except(gates, j))),
        sums::product(gates.len() as int, |i: int| gates[i].1),
    )
}

/// The fractions added one by one.
pub open spec fn folded<F: Field>(gates: Seq<Gate<F>>) -> Gate<F>
    decreases gates.len(),
{
    if gates.len() == 0 {
        (F::of_int(0), F::of_int(1))
    } else {
        add_fractions(folded(gates.drop_last()), gates.last())
    }
}

/// Adding fractions is associative.
proof fn lemma_add_assoc<F: Field>(a: Gate<F>, b: Gate<F>, c: Gate<F>)
    ensures
        add_fractions(add_fractions(a, b), c) == add_fractions(a, add_fractions(b, c)),
{
    let x = a.0.times(b.1);
    let y = b.0.times(a.1);
    field::lemma_distrib_right(c.1, x, y);
    F::law_times_assoc(a.0, b.1, c.1);
    F::law_times_assoc(b.0, a.1, c.1);
    F::law_times_comm(a.1, c.1);
    F::law_times_assoc(b.0, c.1, a.1);
    F::law_times_assoc(a.1, b.1, c.1);
    field::lemma_distrib_right(a.1, b.0.times(c.1), c.0.times(b.1));
    F::law_times_comm(a.1, b.1);
    F::law_times_assoc(c.0, b.1, a.1);
    F::law_plus_assoc(
        a.0.times(b.1.times(c.1)),
        b.0.times(c.1).times(a.1),
        c.0.times(b.1.times(a.1)),
    );
}

/// Adding in pairs first does not change the sum.
proof fn lemma_fold_above<F: Field>(gates: Seq<Gate<F>>)
    requires
        gates.len() % 2 == 0,
    ensures
        folded(level_above(gates)) == folded(gates),
    decreases gates.len(),
{
    let up = level_above(gates);
    if gates.len() > 0 {
        let n = gates.len();
        let short = gates.take(n - 2);
        lemma_fold_above(short);
        assert(level_above(short) =~= up.drop_last());
        let d1 = gates.drop_last();
        assert(d1.drop_last() =~= short);
        assert(folded(gates) == add_fractions(folded(d1), gates.last()));
        assert(folded(d1) == add_fractions(folded(d1.drop_last()), d1.last()));
        lemma_add_assoc(folded(short), gates[n - 2], gates[n - 1]);
    }
}

/// Every gate is canonical.
pub open spec fn gates_valid<F: Field>(gates: Seq<Gate<F>>) -> bool {
    forall|i: int| 0 <= i < gates.len() ==> (#[trigger] gates[i]).0.valid() && gates[i].1.valid()
}

pub proof fn lemma_above_valid<F: Field>(gates: Seq<Gate<F>>)
    ensures
        gates_valid(level_above(gates)),
{
    let up = level_above(gates);
    assert forall|i: int| 0 <= i < up.len() implies (#[trigger] up[i]).0.valid()
        && up[i].1.valid() by {
        let a = gates[2 * i];
        let b = gates[2 * i + 1];
        F::law_valid(a.0.times(b.1), b.0.times(a.1));
        F::law_valid(a.1, b.1);
    }
}

/// The root is the fractions added one by one.
proof fn lemma_root_folded<F: Field>(gates: Seq<Gate<F>>, depth: nat)
    requires
        gates.len() == pow2(depth),
        gates_valid(gates),
    ensures
        pyramid(gates, depth)[0][0] == folded(gates),
    decreases depth,
{
    poly::lemma_pow2_zero();
    if depth == 0 {
        let g = gates[0];
        assert(gates.drop_last() =~= Seq::<Gate<F>>::empty());
        reveal_with_fuel(folded, 2);
        field::lemma_zero_times(g.1);
        F::law_times_one(g.0);
        field::lemma_zero_plus(g.0);
        field::lemma_one_times(g.1);
    } else {
        let up = level_above(gates);
        poly::lemma_pow2_step(depth);
        lemma_above_valid(gates);
        lemma_root_folded(up, (depth - 1) as nat);
        lemma_fold_above(gates);
        lemma_pyramid(up, (depth - 1) as nat);
    }
}

/// Adding fractions one by one gives the sum over the common denominator.
proof fn lemma_folded_total<F: Field>(gates: Seq<Gate<F>>)
    ensures
        folded(gates) == total(gates),
    decreases gates.len(),
{
    if gates.len() > 0 {
        let n = gates.len() - 1;
        let s = gates.drop_last();
        let g = gates.last();
        lemma_folded_total(s);
        let dens = |i: int| gates[i].1;
        sums::lemma_product_ext(n, dens, |i: int| s[i].1);
        // the numerators of the first fractions gain the last denominator
        let f = |j: int| gates[j].0.times(except(gates, j));
        let fs = |j: int| s[j].0.times(except(s, j));
        let scaled = |j: int| fs(j).times(g.1);
        assert forall|j: int| 0 <= j < n implies #[trigger] f(j) == scaled(j) by {
            let pj = |i: int| other(gates, j, i);
            let ps = |i: int| other(s, j, i);
            sums::lemma_product_ext(n, pj, ps);
            assert(except(gates, j) == sums::product(n, pj).times(pj(n)));
            F::law_times_assoc(gates[j].0, except(s, j), g.1);
        }
        sums::lemma_sum_ext(n, f, scaled);
        sums::lemma_sum_scale_right(n, fs, g.1);
        sums::lemma_sum_ext(n, scaled, |j: int| fs(j).times(g.1));
        // the last numerator gains all the others
        let pn = |i: int| other(gates, n, i);
        sums::lemma_product_ext(n, pn, |i: int| s[i].1);
        sums::lemma_product_valid(n, pn);
        F::law_times_one(sums::product(n, pn));
        assert(except(gates, n as int) == sums::product(n, pn).times(pn(n)));
    }
}

/// The root is the sum of the leaf fractions: its denominator is the product of all denominators,
/// and its numerator the sum of the numerators, each times all the other denominators.
pub proof fn law_root<F: Field>(gates: Seq<Gate<F>>, depth: nat)
    requires
        gates.len() == pow2(depth),
        gates_valid(gates),
    ensures
        pyramid(gates, depth)[0][0] == total(gates),
{
    lemma_root_folded(gates, depth);
    lemma_folded_total(gates);
}

/// A denominator times the product of all the others is the product of all.
pub proof fn lemma_except<F: Field>(gates: Seq<Gate<F>>, j: int)
    requires
        0 <= j < gates.len(),
    ensures
        gates[j].1.times(except(gates, j)) == sums::product(
            gates.len() as int,
            |i: int| gates[i].1,
        ),
{
    lemma_except_prefix(gates, j, gates.len() as int);
}

proof fn lemma_except_prefix<F: Field>(gates: Seq<Gate<F>>, j: int, n: int)
    requires
        0 <= j < n <= gates.len(),
    ensures
        gates[j].1.times(
            sums::product(
                n,
                |i: int| other(gates, j, i),
            ),
        ) == sums::product(n, |i: int| gates[i].1),
    decreases n,
{
    let d = gates[j].1;
    let pj = |i: int| other(gates, j, i);
    let all = |i: int| gates[i].1;
    let rest = sums::product(n - 1, pj);
    if j == n - 1 {
        sums::lemma_product_ext(n - 1, pj, all);
        sums::lemma_product_valid(n - 1, pj);
        F::law_times_one(rest);
        F::law_times_comm(d, rest);
    } else {
        lemma_except_prefix(gates, j, n - 1);
        F::law_times_assoc(d, rest, gates[n - 1].1);
    }
}

/// Where every denominator has an inverse, the root numerator is the root denominator times the sum
/// of the quotients.
pub proof fn law_root_quotient<F: Field>(gates: Seq<Gate<F>>, depth: nat, inverses: Seq<F>)
    requires
        gates.len() == pow2(depth),
        gates_valid(gates),
        inverses.len() == gates.len(),
        forall|i: int|
            0 <= i < gates.len() ==> (#[trigger] gates[i]).1.times(inverses[i]) == F::of_int(1),
    ensures
        ({
            let root = pyramid(gates, depth)[0][0];
            root.0 == root.1.times(
                sums::sum(gates.len() as int, |i: int| gates[i].0.times(inverses[i])),
            )
        }),
{
    law_root(gates, depth);
    let n = gates.len() as int;
    let den = sums::product(n, |i: int| gates[i].1);
    let f = |j: int| gates[j].0.times(except(gates, j));
    let q = |j: int| gates[j].0.times(inverses[j]);
    let scaled = |j: int| den.times(q(j));
    assert forall|j: int| 0 <= j < n implies #[trigger] f(j) == scaled(j) by {
        lemma_except(gates, j);
        let e = except(gates, j);
        let d = gates[j].1;
        let v = inverses[j];
        sums::lemma_product_valid(
            n,
            |i: int| other(gates, j, i),
        );
        // den (n v) = n (den v) = n ((d e) v) = n ((d v) e) = n e
        field::lemma_times_swap(den, gates[j].0, v);
        F::law_times_comm(d, e);
        F::law_times_assoc(e, d, v);
        assert(gates[j].1.times(inverses[j]) == F::of_int(1));
        F::law_times_one(e);
    }
    sums::lemma_sum_ext(n, f, scaled);
    sums::lemma_sum_scale(n, den, q);
    sums::lemma_sum_ext(n, scaled, |j: int| den.times(q(j)));
}

/// Two circuits whose leaf fractions have the same sum have the same fraction at the root.
pub proof fn law_equal_sums<F: Field>(
    a: Seq<Gate<F>>,
    depth_a: nat,
    inv_a: Seq<F>,
    b: Seq<Gate<F>>,
    depth_b: nat,
    inv_b: Seq<F>,
)
    requires
        a.len() == pow2(depth_a),
        gates_valid(a),
        inv_a.len() == a.len(),
        forall|i: int| 0 <= i < a.len() ==> (#[trigger] a[i]).1.times(inv_a[i]) == F::of_int(1),
        b.len() == pow2(depth_b),
        gates_valid(b),
        inv_b.len() == b.len(),
        forall|i: int| 0 <= i < b.len() ==> (#[trigger] b[i]).1.times(inv_b[i]) == F::of_int(1),
        sums::sum(a.len() as int, |i: int| a[i].0.times(inv_a[i])) == sums::sum(
            b.len() as int,
            |i: int| b[i].0.times(inv_b[i]),
        ),
    ensures
        ({
            let ra = pyramid(a, depth_a)[0][0];
            let rb = pyramid(b, depth_b)[0][0];
            ra.0.times(rb.1) == rb.0.times(ra.1)
        }),
{
    law_root_quotient(a, depth_a, inv_a);
    law_root_quotient(b, depth_b, inv_b);
    let ra = pyramid(a, depth_a)[0][0];
    let rb = pyramid(b, depth_b)[0][0];
    let s = sums::sum(a.len() as int, |i: int| a[i].0.times(inv_a[i]));
    F::law_times_assoc(ra.1, s, rb.1);
    F::law_times_comm(s, rb.1);
    F::law_times_comm(ra.1, rb.1.times(s));
}

} // verus!
