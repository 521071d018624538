//! Pushforward openings: claims about one-hot read matrices are proved by a grand-sum argument over
//! their dense index columns.
//!
//! In this module the first coordinate of a point is the least significant variable.

use crate::field;
use crate::field::Field;
use crate::framework::poly;
use crate::framework::sums;
use vstd::arithmetic::power2::pow2;
use vstd::prelude::*;
use vstd::string::*;

pub mod circuit;
pub mod driver;
pub mod gkr;
pub mod layer;
pub mod pushforward;

verus! {

/// The two circuits of a pushforward proof: `A` sums over the rows, `B` over the columns.
#[derive(Clone, Copy, Debug, PartialEq, Eq, Structural)]
pub enum CircuitTag {
    A,
    B,
}

/// Why a pushforward proof fails.
#[derive(Clone, Copy, Debug, PartialEq, Eq, Structural)]
pub enum GkrError {
    /// The combined claim is not the extension of the pushforward at the column point.
    MainIdentity,
    /// The two roots are different fractions.
    RootHistogram,
    /// The reduced claim of a layer does not hold of the four sent values.
    LayerConsistency { circuit: CircuitTag, layer: usize },
    /// A leaf is not the public value it must be.
    LeafStructural { circuit: CircuitTag },
    /// A sumcheck was rejected.
    Sumcheck,
}

/// The decimal digits of a number.
pub open spec fn digits(n: nat) -> Seq<char>
    decreases n,
{
    if n < 10 {
        seq![digit(n)]
    } else {
        digits(n / 10).push(digit(n % 10))
    }
}

/// A decimal digit.
pub open spec fn digit(d: nat) -> char {
    (48 + d) as char
}

/// The letter of a circuit.
pub open spec fn tag_text(tag: CircuitTag) -> Seq<char> {
    match tag {
        CircuitTag::A => seq!['A'],
        CircuitTag::B => seq!['B'],
    }
}

/// The description of an error.
pub open spec fn error_text(e: GkrError) -> Seq<char> {
    match e {
        GkrError::MainIdentity => "LogUp* main identity (eq. 5) failed"@,
        GkrError::RootHistogram => "GKR root histogram N_A·D_B ≠ N_B·D_A"@,
        GkrError::LayerConsistency { circuit, layer } => {
            "per-layer sumcheck consistency failed (circuit "@ + tag_text(circuit) + ", layer "@
                + digits(layer as nat) + ")"@
        },
        GkrError::LeafStructural { circuit } => {
            "GKR leaf structural check failed (circuit "@ + tag_text(circuit) + ")"@
        },
        GkrError::Sumcheck => "framework sumcheck verifier rejected a GKR layer"@,
    }
}

impl CircuitTag {
    /// The letter of the circuit.
    fn letter(&self) -> (r: &'static str)
        ensures
            r@ == tag_text(*self),
    {
        proof {
            reveal_strlit("A");
            reveal_strlit("B");
        }
        match self {
            CircuitTag::A => {
                assert("A"@ =~= seq!['A']);
                "A"
            },
            CircuitTag::B => {
                assert("B"@ =~= seq!['B']);
                "B"
            },
        }
    }
}

/// A digit as a string.
fn digit_str(d: usize) -> (r: &'static str)
    requires
        d < 10,
    ensures
        r@ == seq![digit(d as nat)],
{
    proof {
        reveal_strlit("0");
        reveal_strlit("1");
        reveal_strlit("2");
        reveal_strlit("3");
        reveal_strlit("4");
        reveal_strlit("5");
        reveal_strlit("6");
        reveal_strlit("7");
        reveal_strlit("8");
        reveal_strlit("9");
    }
    let r: &'static str = if d == 0 {
        "0"
    } else if d == 1 {
        "1"
    } else if d == 2 {
        "2"
    } else if d == 3 {
        "3"
    } else if d == 4 {
        "4"
    } else if d == 5 {
        "5"
    } else if d == 6 {
        "6"
    } else if d == 7 {
        "7"
    } else if d == 8 {
        "8"
    } else {
        "9"
    };
    assert(r@ =~= seq![digit(d as nat)]);
    r
}

/// Append the decimal digits of a number.
fn append_number(s: &mut String, n: usize)
    ensures
        final(s)@ == old(s)@ + digits(n as nat),
    decreases n,
{
    let ghost before = s@;
    if n < 10 {
        s.append(digit_str(n));
    } else {
        append_number(s, n / 10);
        s.append(digit_str(n % 10));
        assert(s@ =~= before + digits(n as nat));
    }
}

impl GkrError {
    /// The description of the error.
    pub fn message(&self) -> (r: String)
        ensures
            r@ == error_text(*self),
    {
        match self {
            GkrError::MainIdentity => String::from_str("LogUp* main identity (eq. 5) failed"),
            GkrError::RootHistogram => String::from_str("GKR root histogram N_A·D_B ≠ N_B·D_A"),
            GkrError::LayerConsistency { circuit, layer } => {
                let mut s: String = String::from_str(
                    "per-layer sumcheck consistency failed (circuit ",
                );
                s.append(circuit.letter());
                s.append(", layer ");
                append_number(&mut s, *layer);
                s.append(")");
                s
            },
            GkrError::LeafStructural { circuit } => {
                let mut s: String = String::from_str("GKR leaf structural check failed (circuit ");
                s.append(circuit.letter());
                s.append(")");
                s
            },
            GkrError::Sumcheck => String::from_str(
                "framework sumcheck verifier rejected a GKR layer",
            ),
        }
    }
}

/// The table of the equality polynomial at a point whose first coordinate is the least significant.
pub fn lsb_eq_table<F: Field>(point: &[F]) -> (r: Vec<F>)
    requires
        pow2(point@.len()) <= usize::MAX,
    ensures
        r@ == poly::eq_table(point@.reverse()),
{
    poly::eq_evals(&poly::reversed(point))
}

/// The extension of a column at a point whose first coordinate is the least significant.
pub fn mle_eval_lsb<F: Field>(evals: &[F], point: &[F]) -> (r: F)
    requires
        evals@.len() == pow2(point@.len()),
    ensures
        r == poly::mle(evals@, point@.reverse()),
{
    poly::evaluate(evals, &poly::reversed(point))
}

/// The column of indices.
pub open spec fn index_column<F: Field>(n: nat) -> Seq<F> {
    Seq::new(pow2(n), |k: int| F::of_int(k))
}

/// The extension of the column of indices at a point whose first coordinate is the least
/// significant.
pub fn idx_mle_lsb<F: Field>(point: &[F]) -> (r: F)
    ensures
        r == poly::mle(index_column::<F>(point@.len()), point@.reverse()),
{
    let mut acc: F = field::zero();
    let mut weight: F = field::one();
    let two: F = F::from_u64(2);
    let n: usize = point.len();
    proof {
        poly::lemma_pow2_zero();
        let none = point@.take(0);
        assert(none.reverse() =~= Seq::<F>::empty());
        F::law_of_int_valid(0);
        poly::lemma_mle_point(index_column::<F>(0), none.reverse());
    }
    for i in 0..n
        invariant
            n == point@.len(),
            two == F::of_int(2),
            weight == F::of_int(pow2(i as nat) as int),
            acc == poly::mle(index_column::<F>(i as nat), point@.take(i as int).reverse()),
    {
        proof {
            lemma_index_step(point@.take(i as int), point@[i as int]);
            assert(point@.take(i + 1) =~= point@.take(i as int).push(point@[i as int]));
            poly::lemma_pow2_step((i + 1) as nat);
            F::law_of_int_times(pow2(i as nat) as int, 2);
        }
        acc = acc.add(weight.mul(point[i]));
        weight = weight.mul(two);
    }
    assert(point@.take(n as int) =~= point@);
    acc
}

/// One more, most significant, coordinate adds its weight to the extension of the indices.
proof fn lemma_index_step<F: Field>(p: Seq<F>, x: F)
    ensures
        poly::mle(index_column::<F>(p.len() + 1), p.push(x).reverse()) == poly::mle(
            index_column::<F>(p.len()),
            p.reverse(),
        ).plus(F::of_int(pow2(p.len()) as int).times(x)),
{
    let half = pow2(p.len()) as int;
    let r = p.reverse();
    let a = seq![x];
    assert(p.push(x).reverse() =~= a + r);
    let col = index_column::<F>(p.len() + 1);
    let low = index_column::<F>(p.len());
    poly::lemma_pow2_zero();
    poly::lemma_pow2_step(1);
    poly::lemma_pow2_step(p.len() + 1);
    vstd::arithmetic::power2::lemma_pow2_pos(p.len());
    assert(col.len() == pow2(1) * pow2(p.len()));
    poly::lemma_mle_matrix(col, a, r);
    let m = poly::mle(low, r);
    let w = F::of_int(half);
    let f = |j: int| low[j].times(poly::eq_weight(r, j));
    let eq = |j: int| poly::eq_weight(r, j);
    // the lower half holds the indices, the upper half the indices plus the weight
    let g0 = |j: int| col[0 * pow2(r.len()) + j].times(poly::eq_weight(r, j));
    let g1 = |j: int| col[1 * pow2(r.len()) + j].times(poly::eq_weight(r, j));
    let shifted = |j: int| f(j).plus(w.times(eq(j)));
    assert forall|j: int| 0 <= j < half implies #[trigger] g0(j) == f(j) by {
        assert(0 * pow2(r.len()) == 0);
    }
    assert forall|j: int| 0 <= j < half implies #[trigger] g1(j) == shifted(j) by {
        assert(1 * pow2(r.len()) == half);
        F::law_of_int_plus(j, half);
        field::lemma_distrib_right(eq(j), F::of_int(j), w);
    }
    sums::lemma_sum_ext(half, g0, f);
    sums::lemma_sum_ext(half, g1, shifted);
    let scaled = |j: int| w.times(eq(j));
    sums::lemma_sum_plus(half, f, scaled);
    sums::lemma_sum_ext(half, shifted, |j: int| f(j).plus(scaled(j)));
    sums::lemma_sum_scale(half, w, eq);
    sums::lemma_sum_ext(half, scaled, |j: int| w.times(eq(j)));
    poly::lemma_eq_sum(r);
    sums::lemma_sum_ext(half, eq, |i: int| poly::eq_weight(r, i));
    F::law_of_int_valid(half);
    F::law_times_one(w);
    assert(sums::sum(half, g0) == m);
    assert(sums::sum(half, g1) == m.plus(w));
    // recombine the two halves
    let outer = |k: int|
        poly::eq_weight(a, k).times(
            sums::sum(
                pow2(r.len()) as int,
                |j: int| col[k * pow2(r.len()) + j].times(poly::eq_weight(r, j)),
            ),
        );
    assert(sums::sum(0, outer) == F::of_int(0));
    assert(sums::sum(1, outer) == sums::sum(0, outer).plus(outer(0)));
    assert(sums::sum(2, outer) == sums::sum(1, outer).plus(outer(1)));
    sums::lemma_sum_ext(
        half,
        |j: int| col[0 * pow2(r.len()) + j].times(poly::eq_weight(r, j)),
        g0,
    );
    sums::lemma_sum_ext(
        half,
        |j: int| col[1 * pow2(r.len()) + j].times(poly::eq_weight(r, j)),
        g1,
    );
    assert(a.drop_last() =~= Seq::<F>::empty());
    let one = F::of_int(1);
    let c = poly::complement(x);
    reveal_with_fuel(poly::eq_weight, 2);
    assert(poly::eq_weight(a, 0) == one.times(c)) by {
        assert(0int / 2 == 0 && 0int % 2 == 0);
    }
    assert(poly::eq_weight(a, 1) == one.times(x)) by {
        assert(1int / 2 == 0 && 1int % 2 == 1);
    }
    poly::lemma_mle_valid(low, r);
    lemma_recombine(x, m, w);
    F::law_valid(poly::eq_weight(a, 0), m);
    field::lemma_zero_plus(outer(0));
}

/// `(1 (1 - x)) m + (1 x) (m + w) = m + w x`.
proof fn lemma_recombine<F: Field>(x: F, m: F, w: F)
    requires
        m.valid(),
    ensures
        F::of_int(1).times(poly::complement(x)).times(m).plus(
            F::of_int(1).times(x).times(m.plus(w)),
        ) == m.plus(w.times(x)),
{
    let one = F::of_int(1);
    let c = poly::complement(x);
    F::law_valid(one, x);
    field::lemma_one_times(c);
    let x1 = one.times(x);
    F::law_times_assoc(one, x, m.plus(w));
    F::law_valid(x, m.plus(w));
    field::lemma_one_times(x.times(m.plus(w)));
    F::law_distrib(x, m, w);
    F::law_times_comm(c, m);
    field::lemma_distrib_minus(m, one, x);
    F::law_times_one(m);
    F::law_times_comm(m, x);
    F::law_times_comm(x, w);
    let xm = x.times(m);
    field::lemma_minus_then_plus(m, xm, xm.plus(w.times(x)));
    F::law_plus_comm(xm, w.times(x));
    F::law_valid(w, x);
    lemma_cancel(w.times(x), xm);
}

/// `(a + b) - b = a`.
proof fn lemma_cancel<F: Field>(a: F, b: F)
    requires
        a.valid(),
    ensures
        a.plus(b).minus(b) == a,
{
    F::law_minus(a.plus(b), b);
    F::law_plus_assoc(a, b, b.times(F::of_int(-1)));
    F::law_minus(b, b);
    field::lemma_minus_self(b);
    F::law_plus_zero(a);
}

/// The number that decimal digits spell.
pub open spec fn spelled(s: Seq<char>) -> int
    decreases s.len(),
{
    if s.len() == 0 {
        0
    } else {
        10 * spelled(s.drop_last()) + (s.last() as int - '0' as int)
    }
}

/// The layer in the description of an error is spelled in decimal digits that read back to it, without
/// a leading zero, and the letter of a circuit is that of its name.
pub proof fn law_text(circuit: CircuitTag, layer: nat)
    ensures
        spelled(digits(layer)) == layer,
        digits(layer).len() > 0,
        layer > 0 ==> digits(layer)[0] != '0',
        forall|i: int|
            0 <= i < digits(layer).len() ==> '0' as int <= #[trigger] digits(layer)[i] as int
                <= '9' as int,
        tag_text(circuit) == (match circuit {
            CircuitTag::A => seq!['A'],
            CircuitTag::B => seq!['B'],
        }),
    decreases layer,
{
    let s = digits(layer);
    if layer < 10 {
        assert(s.drop_last() =~= Seq::empty());
        reveal_with_fuel(spelled, 2);
    } else {
        law_text(circuit, layer / 10);
        assert(s.drop_last() =~= digits(layer / 10));
        assert(s.last() == digit(layer % 10));
    }
}

} // verus!
