//! The bits of a lookup index, as numbers and as polynomials in its bits.
//!
//! An interleaved index holds the bits of the left operand at its odd positions and those of the
//! right operand at its even positions.

use crate::field;
use crate::field::Field;
use crate::framework::poly;
use crate::zkvm::instruction_lookups::operand_poly;
use vstd::arithmetic::power2::pow2;
use vstd::prelude::*;

verus! {

/// The left operand held by the low `n` bits of an interleaved index.
pub open spec fn left_operand(x: int, n: nat) -> int {
    operand_poly::strided_bits(x, 1, 2, n / 2)
}

/// The right operand held by the low `n` bits of an interleaved index.
pub open spec fn right_operand(x: int, n: nat) -> int {
    operand_poly::strided_bits(x, 0, 2, n / 2)
}

/// The operand on a side held by the low `n` bits of an interleaved index.
pub open spec fn operand(x: int, n: nat, left: bool) -> int {
    if left {
        left_operand(x, n)
    } else {
        right_operand(x, n)
    }
}

/// Strided bits in two parts.
pub proof fn lemma_strided_split(x: int, low: nat, step: nat, m1: nat, m2: nat)
    ensures
        operand_poly::strided_bits(x, low, step, m1 + m2) == operand_poly::strided_bits(
            x,
            low + step * m2,
            step,
            m1,
        ) * pow2(m2) + operand_poly::strided_bits(x, low, step, m2),
    decreases m2,
{
    poly::lemma_pow2_zero();
    if m2 == 0 {
        assert(step * m2 == 0) by (nonlinear_arith)
            requires
                m2 == 0,
        ;
    } else {
        let k = (m2 - 1) as nat;
        lemma_strided_split(x, low + step, step, m1, k);
        poly::lemma_pow2_step(m2);
        assert((m1 + m2 - 1) as nat == m1 + k);
        assert(low + step + step * k == low + step * m2) by (nonlinear_arith)
            requires
                m2 == k + 1,
        ;
        let hi = operand_poly::strided_bits(x, low + step * m2, step, m1);
        let p = pow2(k) as int;
        assert(hi * (2 * p) == 2 * (hi * p)) by (nonlinear_arith);
    }
}

/// Strided bits are a number of that many bits.
pub proof fn lemma_strided_bound(x: int, low: nat, step: nat, m: nat)
    ensures
        0 <= operand_poly::strided_bits(x, low, step, m) < pow2(m),
    decreases m,
{
    poly::lemma_pow2_zero();
    if m > 0 {
        lemma_strided_bound(x, low + step, step, (m - 1) as nat);
        poly::lemma_pow2_step(m);
    }
}

/// Cutting off low bits moves the positions.
pub proof fn lemma_strided_shift(x: int, s: nat, low: nat, step: nat, m: nat)
    requires
        x >= 0,
    ensures
        operand_poly::strided_bits(x / (pow2(s) as int), low, step, m)
            == operand_poly::strided_bits(x, low + s, step, m),
    decreases m,
{
    if m > 0 {
        lemma_strided_shift(x, s, low + step, step, (m - 1) as nat);
        vstd::arithmetic::power2::lemma_pow2_pos(s);
        vstd::arithmetic::power2::lemma_pow2_pos(low);
        vstd::arithmetic::div_mod::lemma_div_denominator(x, pow2(s) as int, pow2(low) as int);
        poly::lemma_pow2_concat(s, low);
        assert(low + step + s == low + s + step);
    }
}

/// Positions below `k` are unaffected by the bits above.
pub proof fn lemma_strided_low(x: int, k: nat, low: nat, step: nat, m: nat)
    requires
        x >= 0,
        m == 0 || low + step * (m - 1) < k,
    ensures
        operand_poly::strided_bits(x % (pow2(k) as int), low, step, m)
            == operand_poly::strided_bits(x, low, step, m),
    decreases m,
{
    if m > 0 {
        if m > 1 {
            assert(low + step + step * (m - 2) == low + step * (m - 1)) by (nonlinear_arith);
        }
        lemma_strided_low(x, k, low + step, step, (m - 1) as nat);
        assert(step * (m - 1) >= 0) by (nonlinear_arith)
            requires
                m >= 1,
        ;
        lemma_bit_of_low(x, k, low);
    }
}

/// A bit below position `k` is a bit of the remainder modulo `2^k`.
pub proof fn lemma_bit_of_low(x: int, k: nat, low: nat)
    requires
        x >= 0,
        low < k,
    ensures
        ((x % (pow2(k) as int)) / (pow2(low) as int)) % 2 == (x / (pow2(low) as int)) % 2,
{
    let p = pow2(low) as int;
    let above = (k - low) as nat;
    let q = pow2(above) as int;
    vstd::arithmetic::power2::lemma_pow2_pos(low);
    vstd::arithmetic::power2::lemma_pow2_pos(above);
    poly::lemma_pow2_concat(low, above);
    vstd::arithmetic::div_mod::lemma_mod_breakdown(x, p, q);
    let y = x / p;
    let r = x % p;
    vstd::arithmetic::div_mod::lemma_mod_bound(x, p);
    let z = x % (p * q);
    assert(z == p * (y % q) + r);
    vstd::arithmetic::div_mod::lemma_fundamental_div_mod_converse(z, p, y % q, r);
    assert(z / p == y % q);
    poly::lemma_pow2_step(above);
    let half = pow2((above - 1) as nat) as int;
    vstd::arithmetic::div_mod::lemma_mod_mod(y, 2, half);
}

/// A number below `2^k` has no bits from position `k` on.
pub proof fn lemma_strided_zero(x: int, k: nat, low: nat, step: nat, m: nat)
    requires
        0 <= x < pow2(k),
        low >= k,
    ensures
        operand_poly::strided_bits(x, low, step, m) == 0,
    decreases m,
{
    if m > 0 {
        lemma_strided_zero(x, k, low + step, step, (m - 1) as nat);
        poly::lemma_pow2_monotone(k, low);
        vstd::arithmetic::div_mod::lemma_basic_div(x, pow2(low) as int);
    }
}

/// All bits of a number, one apart, are the number.
pub proof fn lemma_all_bits(x: int, low: nat, m: nat)
    requires
        0 <= x < pow2(low + m),
    ensures
        operand_poly::strided_bits(x, low, 1, m) == x / (pow2(low) as int),
    decreases m,
{
    vstd::arithmetic::power2::lemma_pow2_pos(low);
    if m == 0 {
        vstd::arithmetic::div_mod::lemma_basic_div(x, pow2(low) as int);
    } else {
        assert(low + 1 + (m - 1) == low + m);
        lemma_all_bits(x, low + 1, (m - 1) as nat);
        poly::lemma_pow2_step(low + 1);
        vstd::arithmetic::div_mod::lemma_div_denominator(x, pow2(low) as int, 2);
        assert(pow2(low) * 2 == pow2(low + 1));
        vstd::arithmetic::div_mod::lemma_fundamental_div_mod(x / (pow2(low) as int), 2);
    }
}

proof fn lemma_one_bit(x: int, at: nat, k: nat)
    ensures
        operand_poly::strided_bits(x, at, 2, 1) * pow2(k) == (if (x / (pow2(at) as int)) % 2 == 1 {
            pow2(k) as int
        } else {
            0
        }),
{
    reveal_with_fuel(operand_poly::strided_bits, 2);
    let b = operand_poly::strided_bits(x, at, 2, 1);
    let p = pow2(k) as int;
    assert(b == (x / (pow2(at) as int)) % 2);
    assert(0 * p == 0 && 1 * p == p) by (nonlinear_arith);
}

/// The two operands of an interleaved index.
pub fn uninterleave_bits(x: u128) -> (r: (u64, u64))
    ensures
        r.0 == left_operand(x as int, 128),
        r.1 == right_operand(x as int, 128),
{
    let mut left: u64 = 0;
    let mut right: u64 = 0;
    let mut place: u64 = 1;
    let mut rest: u128 = x;
    proof {
        poly::lemma_pow2_zero();
        vstd::arithmetic::power2::lemma2_to64();
    }
    for i in 0..64usize
        invariant
            rest == x as int / (pow2((2 * i) as nat) as int),
            i < 64 ==> place == pow2(i as nat),
            left == operand_poly::strided_bits(x as int, 1, 2, i as nat),
            right == operand_poly::strided_bits(x as int, 0, 2, i as nat),
    {
        proof {
            let k = i as nat;
            let at = (2 * i) as nat;
            lemma_strided_split(x as int, 1, 2, 1, k);
            lemma_strided_split(x as int, 0, 2, 1, k);
            assert(1 + k == (i + 1) as nat);
            lemma_one_bit(x as int, at + 1, k);
            lemma_one_bit(x as int, at, k);
            lemma_strided_bound(x as int, 1, 2, k);
            lemma_strided_bound(x as int, 0, 2, k);
            vstd::arithmetic::power2::lemma_pow2_pos(at);
            poly::lemma_pow2_step((at + 1) as nat);
            poly::lemma_pow2_step((at + 2) as nat);
            vstd::arithmetic::div_mod::lemma_div_denominator(x as int, pow2(at) as int, 2);
            vstd::arithmetic::div_mod::lemma_div_denominator(x as int, pow2(at) as int, 4);
            assert(pow2(at) * 2 == pow2(at + 1));
            assert(pow2(at) * 4 == pow2(at + 2));
            assert(at + 2 == (2 * (i + 1)) as nat);
            poly::lemma_pow2_step((i + 1) as nat);
            poly::lemma_pow2_monotone((i + 1) as nat, 64);
            vstd::arithmetic::power2::lemma2_to64();
        }
        if (rest / 2) % 2 == 1 {
            left = left + place;
        }
        if rest % 2 == 1 {
            right = right + place;
        }
        rest = rest / 4;
        if i < 63 {
            proof {
                poly::lemma_pow2_monotone((i + 1) as nat, 63);
                poly::lemma_pow2_step(64);
                poly::lemma_pow2_step((i + 1) as nat);
                vstd::arithmetic::power2::lemma2_to64();
            }
            place = place * 2;
        }
    }
    (left, right)
}

/// A bit of the index, as a polynomial in its bits, is a coordinate.
proof fn lemma_bit_mle<F: Field>(r: Seq<F>, low: nat)
    requires
        field::all_valid(r),
        low < r.len(),
    ensures
        poly::mle(
            Seq::new(pow2(r.len()), |b: int| F::of_int((b / (pow2(low) as int)) % 2)),
            r,
        ) == r[r.len() - 1 - low],
    decreases low,
{
    let n = r.len();
    let p = Seq::new(pow2(n), |b: int| F::of_int((b / (pow2(low) as int)) % 2));
    let x = r.last();
    let r1 = r.drop_last();
    poly::lemma_pow2_step(n);
    poly::lemma_pow2_zero();
    poly::lemma_mle_step(p, r);
    let q = poly::bind(p, x);
    F::law_of_int_valid(0);
    F::law_of_int_valid(1);
    if low == 0 {
        let c = Seq::new(pow2(r1.len()), |j: int| x);
        assert forall|j: int| 0 <= j < q.len() implies q[j] == c[j] by {
            assert((2 * j) / 1 == 2 * j && (2 * j + 1) / 1 == 2 * j + 1);
            assert((2 * j) % 2 == 0 && (2 * j + 1) % 2 == 1);
            assert(p[2 * j] == F::of_int(0));
            assert(p[2 * j + 1] == F::of_int(1));
            field::lemma_minus_zero(F::of_int(1));
            F::law_times_one(x);
            field::lemma_zero_plus(x);
        }
        assert(q =~= c);
        poly::lemma_mle_constant(x, c, r1);
    } else {
        let l1 = (low - 1) as nat;
        let p1 = Seq::new(pow2(r1.len()), |b: int| F::of_int((b / (pow2(l1) as int)) % 2));
        poly::lemma_pow2_step(low);
        vstd::arithmetic::power2::lemma_pow2_pos(l1);
        assert forall|j: int| 0 <= j < q.len() implies q[j] == p1[j] by {
            vstd::arithmetic::div_mod::lemma_div_denominator(2 * j, 2, pow2(l1) as int);
            vstd::arithmetic::div_mod::lemma_div_denominator(2 * j + 1, 2, pow2(l1) as int);
            assert((2 * j) / 2 == j && (2 * j + 1) / 2 == j);
            let v = p1[j];
            assert(p[2 * j] == v && p[2 * j + 1] == v);
            field::lemma_minus_self(v);
            field::lemma_zero_times(x);
            F::law_of_int_valid((j / (pow2(l1) as int)) % 2);
            F::law_plus_zero(v);
        }
        assert(q =~= p1);
        lemma_bit_mle(r1, l1);
    }
}

/// Strided bits of the index, as a polynomial in its bits, are the strided value of the point.
pub proof fn law_strided_mle<F: Field>(r: Seq<F>, low: nat, step: nat, m: nat)
    requires
        field::all_valid(r),
        m > 0,
        low + step * (m - 1) < r.len(),
    ensures
        poly::mle(
            Seq::new(
                pow2(r.len()),
                |b: int| F::of_int(operand_poly::strided_bits(b, low, step, m)),
            ),
            r,
        ) == operand_poly::strided_value(
            r,
            r.len() - 1 - low - step * (m - 1),
            step as int,
            m as int,
        ),
    decreases m,
{
    let n = r.len();
    let whole = Seq::new(
        pow2(n),
        |b: int| F::of_int(operand_poly::strided_bits(b, low, step, m)),
    );
    let bit = Seq::new(pow2(n), |b: int| F::of_int((b / (pow2(low) as int)) % 2));
    let m1 = (m - 1) as nat;
    let start = n - 1 - low - step * m1;
    assert(step * m1 >= 0) by (nonlinear_arith);
    lemma_bit_mle(r, low);
    operand_poly::lemma_strided_step(r, start, step as int, m1 as int);
    F::law_times_one(r[n - 1 - low]);
    if m1 == 0 {
        assert(step * m1 == 0) by (nonlinear_arith)
            requires
                m1 == 0,
        ;
        reveal_with_fuel(operand_poly::strided_bits, 2);
        assert(whole =~= bit);
        field::lemma_zero_times(F::of_int(2));
        field::lemma_zero_plus(r[start]);
    } else {
        assert(low + step + step * (m1 - 1) == low + step * m1) by (nonlinear_arith);
        law_strided_mle(r, low + step, step, m1);
        let high = Seq::new(
            pow2(n),
            |b: int| F::of_int(operand_poly::strided_bits(b, low + step, step, m1)),
        );
        let twice = Seq::new(pow2(n), |b: int| F::of_int(2).times(high[b]));
        assert forall|b: int| 0 <= b < pow2(n) implies #[trigger] whole[b] == twice[b].plus(
            bit[b],
        ) by {
            let h = operand_poly::strided_bits(b, low + step, step, m1);
            F::law_of_int_times(2, h);
            F::law_of_int_plus(2 * h, (b / (pow2(low) as int)) % 2);
        }
        poly::lemma_mle_scale(F::of_int(2), high, twice, r);
        poly::lemma_mle_plus(twice, bit, whole, r);
        F::law_times_comm(F::of_int(2), poly::mle(high, r));
    }
}

} // verus!
