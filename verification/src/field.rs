//! The field abstraction that every protocol in this crate is generic over.
//!
//! A field element is modelled by itself: two elements denote the same value exactly when they are
//! equal. Only the laws of a commutative ring with a half, in which one is not zero, are used
//! anywhere in the crate, so only those are asked of an implementation, and inverses of the elements
//! that have one.

use vstd::prelude::*;

verus! {

/// A commutative ring with a unit that is not zero and a half of it, with executable arithmetic and
/// its laws.
///
/// `valid` holds of the canonical representation of an element. The result of every operation is
/// canonical, and only the two identity laws need a canonical argument.
pub trait Field: Copy + Sized {
    /// Whether this is the canonical representation of an element.
    spec fn valid(self) -> bool;

    /// The sum of two elements.
    spec fn plus(self, other: Self) -> Self;

    /// The difference of two elements.
    spec fn minus(self, other: Self) -> Self;

    /// The product of two elements.
    spec fn times(self, other: Self) -> Self;

    /// The image of an integer under the unique ring homomorphism from the integers.
    spec fn of_int(i: int) -> Self;

    /// The half of one.
    spec fn half() -> Self;

    /// The inverse of an element, zero if there is none.
    spec fn inverse(self) -> Self;

    proof fn law_one_differs()
        ensures
            Self::of_int(1) != Self::of_int(0),
    ;

    proof fn law_half()
        ensures
            Self::half().plus(Self::half()) == Self::of_int(1),
    ;

    proof fn law_inverse(a: Self, b: Self)
        requires
            a.times(b) == Self::of_int(1),
        ensures
            a.times(a.inverse()) == Self::of_int(1),
    ;

    proof fn law_valid(a: Self, b: Self)
        ensures
            a.plus(b).valid(),
            a.minus(b).valid(),
            a.times(b).valid(),
    ;

    proof fn law_of_int_valid(i: int)
        ensures
            Self::of_int(i).valid(),
    ;

    proof fn law_plus_comm(a: Self, b: Self)
        ensures
            a.plus(b) == b.plus(a),
    ;

    proof fn law_plus_assoc(a: Self, b: Self, c: Self)
        ensures
            a.plus(b).plus(c) == a.plus(b.plus(c)),
    ;

    proof fn law_plus_zero(a: Self)
        requires
            a.valid(),
        ensures
            a.plus(Self::of_int(0)) == a,
    ;

    proof fn law_minus(a: Self, b: Self)
        ensures
            a.minus(b) == a.plus(b.times(Self::of_int(-1))),
    ;

    proof fn law_times_comm(a: Self, b: Self)
        ensures
            a.times(b) == b.times(a),
    ;

    proof fn law_times_assoc(a: Self, b: Self, c: Self)
        ensures
            a.times(b).times(c) == a.times(b.times(c)),
    ;

    proof fn law_times_one(a: Self)
        requires
            a.valid(),
        ensures
            a.times(Self::of_int(1)) == a,
    ;

    proof fn law_times_zero(a: Self)
        ensures
            a.times(Self::of_int(0)) == Self::of_int(0),
    ;

    proof fn law_distrib(a: Self, b: Self, c: Self)
        ensures
            a.times(b.plus(c)) == a.times(b).plus(a.times(c)),
    ;

    proof fn law_of_int_plus(i: int, j: int)
        ensures
            Self::of_int(i + j) == Self::of_int(i).plus(Self::of_int(j)),
    ;

    proof fn law_of_int_times(i: int, j: int)
        ensures
            Self::of_int(i * j) == Self::of_int(i).times(Self::of_int(j)),
    ;

    /// The sum of two elements.
    fn add(self, other: Self) -> (r: Self)
        ensures
            r == self.plus(other),
    ;

    /// The difference of two elements.
    fn sub(self, other: Self) -> (r: Self)
        ensures
            r == self.minus(other),
    ;

    /// The product of two elements.
    fn mul(self, other: Self) -> (r: Self)
        ensures
            r == self.times(other),
    ;

    /// The element of an unsigned integer.
    fn from_u64(n: u64) -> (r: Self)
        ensures
            r == Self::of_int(n as int),
    ;

    /// The element of a signed integer.
    fn from_i128(n: i128) -> (r: Self)
        ensures
            r == Self::of_int(n as int),
    ;

    /// The half of one.
    fn one_half() -> (r: Self)
        ensures
            r == Self::half(),
    ;

    /// The inverse of an element, zero if there is none.
    fn invert(self) -> (r: Self)
        ensures
            r == self.inverse(),
    ;

    /// Whether two elements are equal.
    fn same(self, other: Self) -> (r: bool)
        ensures
            r == (self == other),
    ;
}

/// The zero of the field.
pub fn zero<F: Field>() -> (r: F)
    ensures
        r == F::of_int(0),
{
    F::from_u64(0)
}

/// The one of the field.
pub fn one<F: Field>() -> (r: F)
    ensures
        r == F::of_int(1),
{
    F::from_u64(1)
}

/// Every element of a sequence is canonical.
pub open spec fn all_valid<F: Field>(s: Seq<F>) -> bool {
    forall|i: int| 0 <= i < s.len() ==> (#[trigger] s[i]).valid()
}

pub proof fn lemma_zero_plus<F: Field>(a: F)
    requires
        a.valid(),
    ensures
        F::of_int(0).plus(a) == a,
        a.plus(F::of_int(0)) == a,
{
    F::law_plus_comm(F::of_int(0), a);
    F::law_plus_zero(a);
}

pub proof fn lemma_one_times<F: Field>(a: F)
    requires
        a.valid(),
    ensures
        F::of_int(1).times(a) == a,
        a.times(F::of_int(1)) == a,
{
    F::law_times_comm(F::of_int(1), a);
    F::law_times_one(a);
}

pub proof fn lemma_zero_times<F: Field>(a: F)
    ensures
        F::of_int(0).times(a) == F::of_int(0),
        a.times(F::of_int(0)) == F::of_int(0),
{
    F::law_times_comm(F::of_int(0), a);
    F::law_times_zero(a);
}

/// Multiplication distributes from the right as well.
pub proof fn lemma_distrib_right<F: Field>(a: F, b: F, c: F)
    ensures
        b.plus(c).times(a) == b.times(a).plus(c.times(a)),
{
    F::law_distrib(a, b, c);
    F::law_times_comm(a, b.plus(c));
    F::law_times_comm(a, b);
    F::law_times_comm(a, c);
}

/// Adding zero to the left summand of a sum leaves the sum unchanged, canonical or not.
pub proof fn lemma_plus_absorbs_zero<F: Field>(a: F, b: F)
    ensures
        a.plus(F::of_int(0)).plus(b) == a.plus(b),
{
    F::law_plus_assoc(a, F::of_int(0), b);
    F::law_plus_assoc(a, b, F::of_int(0));
    F::law_plus_comm(F::of_int(0), b);
    F::law_valid(a, b);
    F::law_plus_zero(a.plus(b));
}

/// An element minus itself is zero.
pub proof fn lemma_minus_self<F: Field>(a: F)
    ensures
        a.minus(a) == F::of_int(0),
{
    let n = a.times(F::of_int(-1));
    F::law_minus(a, a);
    lemma_plus_absorbs_zero(a, n);
    // a + 0 and a * 1 agree on the canonical a + 0
    let c = a.plus(F::of_int(0));
    F::law_valid(a, F::of_int(0));
    lemma_one_times(c);
    lemma_distrib_right(F::of_int(-1), a, F::of_int(0));
    lemma_zero_times(F::of_int(-1));
    F::law_valid(a, F::of_int(-1));
    lemma_zero_plus(n);
    assert(c.times(F::of_int(-1)) == n);
    F::law_distrib(c, F::of_int(1), F::of_int(-1));
    F::law_of_int_plus(1, -1);
    lemma_zero_times(c);
}

/// Adding back what was subtracted gives the first element.
pub proof fn lemma_minus_plus<F: Field>(a: F, b: F)
    requires
        a.valid(),
    ensures
        b.plus(a.minus(b)) == a,
        a.minus(b).plus(b) == a,
{
    let n = b.times(F::of_int(-1));
    F::law_minus(a, b);
    F::law_plus_comm(b, a.minus(b));
    F::law_plus_assoc(a, n, b);
    F::law_plus_comm(n, b);
    F::law_minus(b, b);
    lemma_minus_self(b);
    F::law_plus_zero(a);
}

/// The four-term exchange `(a + b) + (c + d) = (a + c) + (b + d)`.
pub proof fn lemma_plus_exchange<F: Field>(a: F, b: F, c: F, d: F)
    ensures
        a.plus(b).plus(c.plus(d)) == a.plus(c).plus(b.plus(d)),
{
    F::law_plus_assoc(a, b, c.plus(d));
    F::law_plus_assoc(b, c, d);
    F::law_plus_comm(b, c);
    F::law_plus_assoc(c, b, d);
    F::law_plus_assoc(a, c, b.plus(d));
}

/// The four-factor exchange `(a b) (c d) = (a c) (b d)`.
pub proof fn lemma_times_exchange<F: Field>(a: F, b: F, c: F, d: F)
    ensures
        a.times(b).times(c.times(d)) == a.times(c).times(b.times(d)),
{
    F::law_times_assoc(a, b, c.times(d));
    F::law_times_assoc(b, c, d);
    F::law_times_comm(b, c);
    F::law_times_assoc(c, b, d);
    F::law_times_assoc(a, c, b.times(d));
}

/// Factors can be moved past each other: `a (b c) = b (a c)`.
pub proof fn lemma_times_swap<F: Field>(a: F, b: F, c: F)
    ensures
        a.times(b.times(c)) == b.times(a.times(c)),
{
    F::law_times_assoc(a, b, c);
    F::law_times_comm(a, b);
    F::law_times_assoc(b, a, c);
}

/// Multiplication distributes over subtraction.
pub proof fn lemma_distrib_minus<F: Field>(a: F, b: F, c: F)
    ensures
        a.times(b.minus(c)) == a.times(b).minus(a.times(c)),
        b.minus(c).times(a) == b.times(a).minus(c.times(a)),
{
    F::law_minus(b, c);
    F::law_distrib(a, b, c.times(F::of_int(-1)));
    F::law_times_assoc(a, c, F::of_int(-1));
    F::law_minus(a.times(b), a.times(c));
    F::law_times_comm(a, b.minus(c));
    F::law_times_comm(a, b);
    F::law_times_comm(a, c);
}

/// Differences add componentwise: `(a - b) + (c - d) = (a + c) - (b + d)`.
pub proof fn lemma_minus_exchange<F: Field>(a: F, b: F, c: F, d: F)
    ensures
        a.minus(b).plus(c.minus(d)) == a.plus(c).minus(b.plus(d)),
{
    let m = F::of_int(-1);
    F::law_minus(a, b);
    F::law_minus(c, d);
    lemma_plus_exchange(a, b.times(m), c, d.times(m));
    lemma_distrib_right(m, b, d);
    F::law_minus(a.plus(c), b.plus(d));
}

/// `(a - b) + c = a + (c - b)`.
pub proof fn lemma_minus_then_plus<F: Field>(a: F, b: F, c: F)
    ensures
        a.minus(b).plus(c) == a.plus(c.minus(b)),
{
    let n = b.times(F::of_int(-1));
    F::law_minus(a, b);
    F::law_minus(c, b);
    F::law_plus_assoc(a, n, c);
    F::law_plus_comm(n, c);
}

/// The value at `0` of the line through `a` and `b` is `a`, at `1` it is `b`.
pub proof fn lemma_line_ends<F: Field>(a: F, b: F)
    requires
        a.valid(),
        b.valid(),
    ensures
        a.plus(F::of_int(0).times(b.minus(a))) == a,
        a.plus(F::of_int(1).times(b.minus(a))) == b,
{
    lemma_zero_times(b.minus(a));
    F::law_plus_zero(a);
    F::law_valid(b, a);
    lemma_one_times(b.minus(a));
    lemma_minus_plus(b, a);
}

/// Subtracting zero changes nothing.
pub proof fn lemma_minus_zero<F: Field>(a: F)
    requires
        a.valid(),
    ensures
        a.minus(F::of_int(0)) == a,
{
    F::law_minus(a, F::of_int(0));
    lemma_zero_times(F::of_int(-1));
    F::law_plus_zero(a);
}

/// `(a + b) - a = b`.
pub proof fn lemma_plus_minus<F: Field>(a: F, b: F)
    requires
        b.valid(),
    ensures
        a.plus(b).minus(a) == b,
{
    let n = a.times(F::of_int(-1));
    F::law_plus_comm(a, b);
    F::law_minus(b.plus(a), a);
    F::law_plus_assoc(b, a, n);
    F::law_minus(a, a);
    lemma_minus_self(a);
    F::law_plus_zero(b);
}

/// `a - (a - b) = b`.
pub proof fn lemma_minus_twice<F: Field>(a: F, b: F)
    requires
        b.valid(),
    ensures
        a.minus(a.minus(b)) == b,
{
    let neg = F::of_int(-1);
    F::law_minus(a, b);
    F::law_minus(a, a.minus(b));
    lemma_distrib_right(neg, a, b.times(neg));
    F::law_times_assoc(b, neg, neg);
    F::law_of_int_times(-1, -1);
    F::law_times_one(b);
    F::law_plus_assoc(a, a.times(neg), b);
    F::law_minus(a, a);
    lemma_minus_self(a);
    lemma_zero_plus(b);
}

/// Adding something that is not zero changes an element.
pub proof fn lemma_sum_moves<F: Field>(a: F, b: F)
    requires
        b.valid(),
        b != F::of_int(0),
    ensures
        a.plus(b) != a,
{
    lemma_plus_minus(a, b);
    lemma_minus_self(a);
}

/// Two values are told apart by a weight that does not cancel their difference.
pub proof fn lemma_weighted_apart<F: Field>(w: F, a: F, b: F)
    requires
        w.times(b.minus(a)) != F::of_int(0),
    ensures
        w.times(b) != w.times(a),
{
    lemma_distrib_minus(w, b, a);
    lemma_minus_self(w.times(a));
}

/// Two different elements stay different when the same element is added to both.
pub proof fn lemma_sum_apart<F: Field>(a: F, b: F, c: F)
    requires
        a.valid(),
        b.valid(),
        a != b,
    ensures
        a.plus(c) != b.plus(c),
        c.plus(a) != c.plus(b),
{
    lemma_plus_minus(c, a);
    lemma_plus_minus(c, b);
    F::law_plus_comm(a, c);
    F::law_plus_comm(b, c);
}

/// Twice an element that is not zero is not zero.
pub proof fn lemma_double_moves<F: Field>(a: F)
    requires
        a.valid(),
        a != F::of_int(0),
    ensures
        a.plus(a) != F::of_int(0),
{
    lemma_distrib_right(F::half(), a, a);
    F::law_distrib(a, F::half(), F::half());
    F::law_half();
    F::law_times_one(a);
    lemma_zero_times(F::half());
}

/// Adding one changes an element.
pub proof fn lemma_increase_moves<F: Field>(a: F)
    ensures
        a.plus(F::of_int(1)) != a,
        a.plus(F::of_int(1)).valid(),
{
    F::law_one_differs();
    F::law_of_int_valid(1);
    F::law_valid(a, F::of_int(1));
    lemma_sum_moves(a, F::of_int(1));
}

} // verus!
