//! The Goldilocks prime field of order `2^64 - 2^32 + 1`.

use crate::field::Field;
use vstd::prelude::*;

verus! {

/// The order of the field.
pub const ORDER: u64 = 0xFFFF_FFFF_0000_0001;

/// An element of the Goldilocks field, held by its residue.
#[derive(Clone, Copy, Debug, PartialEq, Eq, Structural)]
pub struct Goldilocks {
    pub residue: u64,
}

/// The element of the residue class of an integer.
pub open spec fn element(i: int) -> Goldilocks {
    Goldilocks { residue: (i % (ORDER as int)) as u64 }
}

proof fn lemma_add_mod(a: int, b: int)
    ensures
        (a % (ORDER as int) + b) % (ORDER as int) == (a + b) % (ORDER as int),
{
    vstd::arithmetic::div_mod::lemma_add_mod_noop(a % (ORDER as int), b, ORDER as int);
    vstd::arithmetic::div_mod::lemma_add_mod_noop(a, b, ORDER as int);
    vstd::arithmetic::div_mod::lemma_mod_twice(a, ORDER as int);
}

proof fn lemma_mul_mod(a: int, b: int)
    ensures
        ((a % (ORDER as int)) * b) % (ORDER as int) == (a * b) % (ORDER as int),
{
    vstd::arithmetic::div_mod::lemma_mul_mod_noop_left(a, b, ORDER as int);
}

/// A canonical inverse of an element.
pub open spec fn is_inverse(a: Goldilocks, b: Goldilocks) -> bool {
    b.valid() && a.times(b) == element(1)
}

/// An element has at most one canonical inverse.
proof fn lemma_inverse_unique(a: Goldilocks, b: Goldilocks, c: Goldilocks)
    requires
        is_inverse(a, b),
        is_inverse(a, c),
    ensures
        b == c,
{
    Goldilocks::law_times_one(b);
    Goldilocks::law_times_one(c);
    Goldilocks::law_times_assoc(b, a, c);
    Goldilocks::law_times_comm(a, b);
    Goldilocks::law_times_comm(c, element(1));
}

/// A residue with a common factor with the order has no inverse.
proof fn lemma_no_inverse(a: Goldilocks, b: Goldilocks, g: int, x: int, z: int)
    requires
        g > 1,
        ORDER == x * g,
        a.residue == z * g,
    ensures
        a.times(b) != element(1),
{
    if a.times(b) == element(1) {
        let product = a.residue * b.residue;
        vstd::arithmetic::div_mod::lemma_fundamental_div_mod(product, ORDER as int);
        let k = product / (ORDER as int);
        assert(product == ORDER * k + 1);
        let m = z * b.residue - x * k;
        assert(m * g == 1) by (nonlinear_arith)
            requires
                m == z * b.residue - x * k,
                z * g * b.residue == x * g * k + 1,
        ;
        assert(false) by (nonlinear_arith)
            requires
                m * g == 1,
                g > 1,
        ;
    }
}

/// One step of the division with remainder, seen through the two combinations it keeps.
proof fn lemma_division_step(n: int, x: int, y: int, r0: int, r1: int, q: int)
    requires
        n == x * r0 + y * r1,
    ensures
        n == (x * q + y) * r1 + x * (r0 - q * r1),
{
    assert(n == (x * q + y) * r1 + x * (r0 - q * r1)) by (nonlinear_arith)
        requires
            n == x * r0 + y * r1,
    ;
}

/// If two multiples of an element are known, so is their combination.
proof fn lemma_multiple_step(a: Goldilocks, t0: Goldilocks, t1: Goldilocks, r0: int, r1: int, q: int)
    requires
        t0.times(a) == element(r0),
        t1.times(a) == element(r1),
    ensures
        t0.minus(element(q).times(t1)).times(a) == element(r0 - q * r1),
{
    let e = element(q);
    let m = element(-1);
    Goldilocks::law_minus(t0, e.times(t1));
    Goldilocks::law_times_comm(t0.plus(e.times(t1).times(m)), a);
    Goldilocks::law_distrib(a, t0, e.times(t1).times(m));
    Goldilocks::law_times_comm(a, t0);
    Goldilocks::law_times_comm(a, e.times(t1).times(m));
    Goldilocks::law_times_comm(e.times(t1), m);
    Goldilocks::law_times_assoc(m, e.times(t1), a);
    Goldilocks::law_times_assoc(e, t1, a);
    Goldilocks::law_of_int_times(q, r1);
    Goldilocks::law_of_int_times(-1, q * r1);
    Goldilocks::law_of_int_plus(r0, -1 * (q * r1));
    assert(r0 + -1 * (q * r1) == r0 - q * r1);
}

impl Field for Goldilocks {
    open spec fn valid(self) -> bool {
        self.residue < ORDER
    }

    open spec fn plus(self, other: Self) -> Self {
        element(self.residue + other.residue)
    }

    open spec fn minus(self, other: Self) -> Self {
        element(self.residue - other.residue)
    }

    open spec fn times(self, other: Self) -> Self {
        element(self.residue * other.residue)
    }

    open spec fn of_int(i: int) -> Self {
        element(i)
    }

    open spec fn half() -> Self {
        Goldilocks { residue: 0x7FFF_FFFF_8000_0001 }
    }

    open spec fn inverse(self) -> Self {
        if exists|b: Goldilocks| is_inverse(self, b) {
            choose|b: Goldilocks| is_inverse(self, b)
        } else {
            element(0)
        }
    }

    proof fn law_one_differs() {
    }

    proof fn law_half() {
    }

    proof fn law_inverse(a: Self, b: Self) {
        let c = element(b.residue as int);
        lemma_mul_mod(b.residue as int, a.residue as int);
        assert(a.residue * c.residue == c.residue * a.residue) by (nonlinear_arith);
        assert(a.residue * b.residue == b.residue * a.residue) by (nonlinear_arith);
        assert(is_inverse(a, c));
    }

    proof fn law_valid(a: Self, b: Self) {
    }

    proof fn law_of_int_valid(i: int) {
    }

    proof fn law_plus_comm(a: Self, b: Self) {
    }

    proof fn law_plus_assoc(a: Self, b: Self, c: Self) {
        lemma_add_mod(a.residue + b.residue, c.residue as int);
        lemma_add_mod(b.residue + c.residue, a.residue as int);
    }

    proof fn law_plus_zero(a: Self) {
    }

    proof fn law_minus(a: Self, b: Self) {
        let m = ORDER - 1;
        assert(element(-1).residue == m);
        lemma_add_mod(b.residue * m, a.residue as int);
        assert(a.residue + b.residue * m == (a.residue - b.residue) + b.residue * ORDER)
            by (nonlinear_arith)
            requires
                m == ORDER - 1,
        ;
        vstd::arithmetic::div_mod::lemma_mod_multiples_vanish(
            b.residue as int,
            a.residue - b.residue,
            ORDER as int,
        );
        assert(b.residue * ORDER == ORDER * b.residue) by (nonlinear_arith);
    }

    proof fn law_times_comm(a: Self, b: Self) {
        assert(a.residue * b.residue == b.residue * a.residue) by (nonlinear_arith);
    }

    proof fn law_times_assoc(a: Self, b: Self, c: Self) {
        lemma_mul_mod(a.residue * b.residue, c.residue as int);
        lemma_mul_mod(b.residue * c.residue, a.residue as int);
        assert(a.residue * b.residue * c.residue == b.residue * c.residue * a.residue)
            by (nonlinear_arith);
        let bc = b.times(c).residue;
        assert(a.residue * bc == bc * a.residue) by (nonlinear_arith);
    }

    proof fn law_times_one(a: Self) {
        assert(element(1).residue == 1);
        assert(a.residue * 1 == a.residue);
    }

    proof fn law_times_zero(a: Self) {
        assert(element(0).residue == 0);
        assert(a.residue * 0 == 0);
    }

    proof fn law_distrib(a: Self, b: Self, c: Self) {
        let ab = a.residue * b.residue;
        let ac = a.residue * c.residue;
        let bc = b.residue + c.residue;
        lemma_mul_mod(bc, a.residue as int);
        lemma_add_mod(ab, ac % (ORDER as int));
        lemma_add_mod(ac, ab);
        assert(bc * a.residue == ab + ac) by (nonlinear_arith)
            requires
                bc == b.residue + c.residue,
                ab == a.residue * b.residue,
                ac == a.residue * c.residue,
        ;
        let s = b.plus(c).residue;
        assert(a.residue * s == s * a.residue) by (nonlinear_arith);
    }

    proof fn law_of_int_plus(i: int, j: int) {
        lemma_add_mod(i, j % (ORDER as int));
        lemma_add_mod(j, i);
    }

    proof fn law_of_int_times(i: int, j: int) {
        let m = j % (ORDER as int);
        lemma_mul_mod(i, m);
        lemma_mul_mod(j, i);
        assert(i * m == m * i) by (nonlinear_arith);
        assert(i * j == j * i) by (nonlinear_arith);
    }

    fn add(self, other: Self) -> (r: Self) {
        let s: u128 = self.residue as u128 + other.residue as u128;
        Goldilocks { residue: (s % (ORDER as u128)) as u64 }
    }

    fn sub(self, other: Self) -> (r: Self) {
        let m: u64 = other.residue % ORDER;
        let s: u128 = self.residue as u128 + (ORDER - m) as u128;
        proof {
            let q = other.residue as int / (ORDER as int);
            let d = self.residue - other.residue;
            assert(other.residue == q * ORDER + m) by {
                vstd::arithmetic::div_mod::lemma_fundamental_div_mod(
                    other.residue as int,
                    ORDER as int,
                );
                assert(ORDER * q == q * ORDER) by (nonlinear_arith);
            }
            vstd::arithmetic::div_mod::lemma_mod_multiples_vanish(q + 1, d, ORDER as int);
            assert(ORDER * (q + 1) == q * ORDER + ORDER) by (nonlinear_arith);
            assert(s == ORDER * (q + 1) + d);
        }
        Goldilocks { residue: (s % (ORDER as u128)) as u64 }
    }

    fn mul(self, other: Self) -> (r: Self) {
        proof {
            assert(self.residue * other.residue <= u128::MAX) by (nonlinear_arith);
        }
        let s: u128 = self.residue as u128 * other.residue as u128;
        Goldilocks { residue: (s % (ORDER as u128)) as u64 }
    }

    fn from_u64(n: u64) -> (r: Self) {
        Goldilocks { residue: n % ORDER }
    }

    fn from_i128(n: i128) -> (r: Self) {
        if n >= 0 {
            Goldilocks { residue: ((n as u128) % (ORDER as u128)) as u64 }
        } else {
            let a: u128 = (-(n + 1)) as u128;
            let m: u64 = (a % (ORDER as u128)) as u64;
            proof {
                let q = a as int / (ORDER as int);
                vstd::arithmetic::div_mod::lemma_fundamental_div_mod(a as int, ORDER as int);
                vstd::arithmetic::div_mod::lemma_mod_multiples_vanish(
                    -q - 1,
                    ORDER - 1 - m,
                    ORDER as int,
                );
                assert(ORDER * (-q - 1) == -(ORDER * q) - ORDER) by (nonlinear_arith);
                assert(n == ORDER * (-q - 1) + (ORDER - 1 - m));
            }
            Goldilocks { residue: ORDER - 1 - m }
        }
    }

    fn one_half() -> (r: Self) {
        Goldilocks { residue: 0x7FFF_FFFF_8000_0001 }
    }

    fn invert(self) -> (r: Self) {
        let a: u64 = self.residue % ORDER;
        let mut r0: u64 = ORDER;
        let mut r1: u64 = a;
        let mut t0: Goldilocks = Goldilocks { residue: 0 };
        let mut t1: Goldilocks = Goldilocks { residue: 1 };
        let ghost mut top: (int, int) = (1, 0);
        let ghost mut low: (int, int) = (0, 1);
        let ghost q0 = self.residue as int / (ORDER as int);
        proof {
            vstd::arithmetic::div_mod::lemma_fundamental_div_mod(self.residue as int, ORDER as int);
            assert(0 * self.residue == 0);
            assert(1 * self.residue == self.residue);
            assert(t0.times(self) == element(ORDER as int));
            assert(t1.times(self) == element(a as int));
            assert(1 * r0 + 0 * r1 == ORDER);
            assert(0 * r0 + 1 * r1 == a);
        }
        while r1 > 0
            invariant
                a == self.residue % ORDER,
                t0.times(self) == element(r0 as int),
                t1.times(self) == element(r1 as int),
                t0.valid(),
                t1.valid(),
                r0 > 0,
                ORDER == top.0 * r0 + top.1 * r1,
                a == low.0 * r0 + low.1 * r1,
            decreases r1,
        {
            let q: u64 = r0 / r1;
            let r2: u64 = r0 % r1;
            proof {
                vstd::arithmetic::div_mod::lemma_fundamental_div_mod(r0 as int, r1 as int);
                assert(r1 * q == q * r1) by (nonlinear_arith);
                lemma_division_step(ORDER as int, top.0, top.1, r0 as int, r1 as int, q as int);
                lemma_division_step(a as int, low.0, low.1, r0 as int, r1 as int, q as int);
                lemma_multiple_step(self, t0, t1, r0 as int, r1 as int, q as int);
                top = (top.0 * q + top.1, top.0);
                low = (low.0 * q + low.1, low.0);
            }
            let t2: Goldilocks = t0.sub(Goldilocks::from_u64(q).mul(t1));
            t0 = t1;
            t1 = t2;
            r0 = r1;
            r1 = r2;
        }
        proof {
            assert(top.1 * 0 == 0 && low.1 * 0 == 0);
            Goldilocks::law_times_comm(t0, self);
        }
        if r0 == 1 {
            proof {
                assert(is_inverse(self, t0));
                lemma_inverse_unique(self, t0, self.inverse());
            }
            t0
        } else {
            proof {
                let z = low.0 + q0 * top.0;
                assert(self.residue == z * r0) by (nonlinear_arith)
                    requires
                        self.residue == ORDER * q0 + a,
                        ORDER == top.0 * r0,
                        a == low.0 * r0,
                        z == low.0 + q0 * top.0,
                ;
                assert forall|b: Goldilocks| !is_inverse(self, b) by {
                    lemma_no_inverse(self, b, r0 as int, top.0, z);
                }
            }
            Goldilocks { residue: 0 }
        }
    }

    fn same(self, other: Self) -> (r: bool) {
        self.residue == other.residue
    }
}

} // verus!
