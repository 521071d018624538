//! Formulas: the composition polynomials whose values a sumcheck sums over the hypercube.

use crate::field;
use crate::field::Field;
use crate::framework::sums;
use crate::framework::univariate;
use crate::framework::univariate::UnivariatePoly;
use vstd::prelude::*;

verus! {

/// An arithmetic expression over the columns of a sumcheck instance.
pub enum Formula<F> {
    Column(usize),
    Constant(F),
    Sum(Box<Formula<F>>, Box<Formula<F>>),
    Difference(Box<Formula<F>>, Box<Formula<F>>),
    Product(Box<Formula<F>>, Box<Formula<F>>),
}

/// The formula that reads one column.
pub open spec fn col<F>(i: usize) -> Formula<F> {
    Formula::Column(i)
}

/// The formula of a constant.
pub open spec fn con<F>(c: F) -> Formula<F> {
    Formula::Constant(c)
}

/// The formula of a sum.
pub open spec fn plus<F>(a: Formula<F>, b: Formula<F>) -> Formula<F> {
    Formula::Sum(Box::new(a), Box::new(b))
}

/// The formula of a difference.
pub open spec fn minus<F>(a: Formula<F>, b: Formula<F>) -> Formula<F> {
    Formula::Difference(Box::new(a), Box::new(b))
}

/// The formula of a product.
pub open spec fn times<F>(a: Formula<F>, b: Formula<F>) -> Formula<F> {
    Formula::Product(Box::new(a), Box::new(b))
}

impl<F: Field> Formula<F> {
    /// The formula reads only the first `k` columns.
    pub open spec fn reads(self, k: nat) -> bool
        decreases self,
    {
        match self {
            Formula::Column(i) => i < k,
            Formula::Constant(_) => true,
            Formula::Sum(a, b) => a.reads(k) && b.reads(k),
            Formula::Difference(a, b) => a.reads(k) && b.reads(k),
            Formula::Product(a, b) => a.reads(k) && b.reads(k),
        }
    }

    /// Every constant of the formula is canonical.
    pub open spec fn canonical(self) -> bool
        decreases self,
    {
        match self {
            Formula::Column(_) => true,
            Formula::Constant(c) => c.valid(),
            Formula::Sum(a, b) => a.canonical() && b.canonical(),
            Formula::Difference(a, b) => a.canonical() && b.canonical(),
            Formula::Product(a, b) => a.canonical() && b.canonical(),
        }
    }

    /// The total degree of the formula.
    pub open spec fn degree(self) -> nat
        decreases self,
    {
        match self {
            Formula::Column(_) => 1,
            Formula::Constant(_) => 0,
            Formula::Sum(a, b) => univariate::longer(a.degree(), b.degree()),
            Formula::Difference(a, b) => univariate::longer(a.degree(), b.degree()),
            Formula::Product(a, b) => a.degree() + b.degree(),
        }
    }

    /// The value of the formula on one row of column values.
    pub open spec fn value(self, row: Seq<F>) -> F
        decreases self,
    {
        match self {
            Formula::Column(i) => row[i as int],
            Formula::Constant(c) => c,
            Formula::Sum(a, b) => a.value(row).plus(b.value(row)),
            Formula::Difference(a, b) => a.value(row).minus(b.value(row)),
            Formula::Product(a, b) => a.value(row).times(b.value(row)),
        }
    }

    /// The polynomial of the formula on one univariate polynomial per column.
    pub open spec fn polynomial(self, row: Seq<Seq<F>>) -> Seq<F>
        decreases self,
    {
        match self {
            Formula::Column(i) => row[i as int],
            Formula::Constant(c) => seq![c],
            Formula::Sum(a, b) => univariate::poly_plus(a.polynomial(row), b.polynomial(row)),
            Formula::Difference(a, b) => univariate::poly_minus(a.polynomial(row), b.polynomial(row)),
            Formula::Product(a, b) => univariate::poly_times(a.polynomial(row), b.polynomial(row)),
        }
    }

    /// A formula that reads one column.
    pub fn column(i: usize) -> (r: Self)
        ensures
            r == col::<F>(i),
    {
        Formula::Column(i)
    }

    /// A constant formula.
    pub fn constant(c: F) -> (r: Self)
        ensures
            r == con(c),
    {
        Formula::Constant(c)
    }

    /// The sum of two formulas.
    pub fn sum(self, other: Self) -> (r: Self)
        ensures
            r == self::plus(self, other),
    {
        Formula::Sum(Box::new(self), Box::new(other))
    }

    /// The difference of two formulas.
    pub fn difference(self, other: Self) -> (r: Self)
        ensures
            r == self::minus(self, other),
    {
        Formula::Difference(Box::new(self), Box::new(other))
    }

    /// The product of two formulas.
    pub fn product(self, other: Self) -> (r: Self)
        ensures
            r == self::times(self, other),
    {
        Formula::Product(Box::new(self), Box::new(other))
    }

    /// The polynomial of the formula on one univariate polynomial per column.
    pub fn compose(&self, row: &Vec<UnivariatePoly<F>>) -> (r: UnivariatePoly<F>)
        requires
            self.reads(row@.len()),
        ensures
            r@ == self.polynomial(row@.map_values(|p: UnivariatePoly<F>| p@)),
        decreases self,
    {
        match self {
            Formula::Column(i) => copy_poly(&row[*i]),
            Formula::Constant(c) => {
                let mut v: Vec<F> = Vec::new();
                v.push(*c);
                assert(v@ =~= seq![*c]);
                UnivariatePoly::new(v)
            },
            Formula::Sum(a, b) => a.compose(row).plus(&b.compose(row)),
            Formula::Difference(a, b) => a.compose(row).minus(&b.compose(row)),
            Formula::Product(a, b) => a.compose(row).times(&b.compose(row)),
        }
    }
}

fn copy_poly<F: Field>(p: &UnivariatePoly<F>) -> (r: UnivariatePoly<F>)
    ensures
        r@ == p@,
{
    let n: usize = p.coefficients.len();
    let mut v: Vec<F> = Vec::new();
    for i in 0..n
        invariant
            n == p@.len(),
            v@ == p@.take(i as int),
    {
        v.push(p.coefficients[i]);
        assert(v@ =~= p@.take(i + 1));
    }
    assert(v@ =~= p@);
    UnivariatePoly::new(v)
}

/// Evaluating the polynomial of a formula is the formula of the evaluated columns.
pub proof fn lemma_formula_eval<F: Field>(g: Formula<F>, row: Seq<Seq<F>>, x: F)
    requires
        g.reads(row.len()),
        g.canonical(),
    ensures
        univariate::eval(g.polynomial(row), x) == g.value(
            row.map_values(|p: Seq<F>| univariate::eval(p, x)),
        ),
    decreases g,
{
    match g {
        Formula::Column(_) => {},
        Formula::Constant(c) => {
            univariate::lemma_eval_constant(c, x);
        },
        Formula::Sum(a, b) => {
            lemma_formula_eval(*a, row, x);
            lemma_formula_eval(*b, row, x);
            univariate::lemma_eval_plus(a.polynomial(row), b.polynomial(row), x);
        },
        Formula::Difference(a, b) => {
            lemma_formula_eval(*a, row, x);
            lemma_formula_eval(*b, row, x);
            univariate::lemma_eval_minus(a.polynomial(row), b.polynomial(row), x);
        },
        Formula::Product(a, b) => {
            lemma_formula_eval(*a, row, x);
            lemma_formula_eval(*b, row, x);
            univariate::lemma_eval_times(a.polynomial(row), b.polynomial(row), x);
        },
    }
}

/// The polynomial of a formula on lines has one more coefficient than the formula's degree.
pub proof fn lemma_formula_len<F: Field>(g: Formula<F>, row: Seq<Seq<F>>)
    requires
        g.reads(row.len()),
        forall|i: int| 0 <= i < row.len() ==> (#[trigger] row[i]).len() == 2,
    ensures
        g.polynomial(row).len() == g.degree() + 1,
    decreases g,
{
    match g {
        Formula::Column(_) => {},
        Formula::Constant(_) => {},
        Formula::Sum(a, b) => {
            lemma_formula_len(*a, row);
            lemma_formula_len(*b, row);
        },
        Formula::Difference(a, b) => {
            lemma_formula_len(*a, row);
            lemma_formula_len(*b, row);
        },
        Formula::Product(a, b) => {
            lemma_formula_len(*a, row);
            lemma_formula_len(*b, row);
            univariate::lemma_times_len(a.polynomial(row), b.polynomial(row));
        },
    }
}

/// The value of a canonical formula on canonical column values is canonical.
pub proof fn lemma_formula_valid<F: Field>(g: Formula<F>, row: Seq<F>)
    requires
        g.reads(row.len()),
        g.canonical(),
        field::all_valid(row),
    ensures
        g.value(row).valid(),
{
    match g {
        Formula::Column(i) => {
            assert(row[i as int].valid());
        },
        Formula::Constant(_) => {},
        Formula::Sum(a, b) => {
            F::law_valid(a.value(row), b.value(row));
        },
        Formula::Difference(a, b) => {
            F::law_valid(a.value(row), b.value(row));
        },
        Formula::Product(a, b) => {
            F::law_valid(a.value(row), b.value(row));
        },
    }
}

/// The sum of the formulas `f(0), ..., f(n - 1)`.
pub open spec fn sum_of<F: Field>(n: int, f: spec_fn(int) -> Formula<F>) -> Formula<F>
    decreases n,
{
    if n <= 0 {
        con(F::of_int(0))
    } else {
        self::plus(sum_of(n - 1, f), f(n - 1))
    }
}

/// The product of the formulas `f(0), ..., f(n - 1)`.
pub open spec fn product_of<F: Field>(n: int, f: spec_fn(int) -> Formula<F>) -> Formula<F>
    decreases n,
{
    if n <= 0 {
        con(F::of_int(1))
    } else {
        self::times(product_of(n - 1, f), f(n - 1))
    }
}

/// The largest degree of the formulas `f(0), ..., f(n - 1)`.
pub open spec fn max_degree<F: Field>(n: int, f: spec_fn(int) -> Formula<F>) -> nat
    decreases n,
{
    if n <= 0 {
        0
    } else {
        univariate::longer(max_degree(n - 1, f), f(n - 1).degree())
    }
}

/// The value, the reads, the degree and the constants of a finite sum of formulas.
pub proof fn lemma_sum_of<F: Field>(n: int, f: spec_fn(int) -> Formula<F>, k: nat, row: Seq<F>)
    requires
        n >= 0,
        forall|i: int| 0 <= i < n ==> (#[trigger] f(i)).reads(k),
    ensures
        sum_of(n, f).value(row) == sums::sum(n, |i: int| f(i).value(row)),
        sum_of(n, f).reads(k),
        sum_of(n, f).degree() == max_degree(n, f),
        (forall|i: int| 0 <= i < n ==> (#[trigger] f(i)).canonical()) ==> sum_of(n, f).canonical(),
    decreases n,
{
    if n > 0 {
        lemma_sum_of(n - 1, f, k, row);
        assert(f(n - 1).reads(k));
    } else {
        F::law_of_int_valid(0);
    }
}

/// The largest of equal degrees.
pub proof fn lemma_max_degree<F: Field>(n: int, f: spec_fn(int) -> Formula<F>, d: nat)
    requires
        n > 0,
        forall|i: int| 0 <= i < n ==> (#[trigger] f(i)).degree() == d,
    ensures
        max_degree(n, f) == d,
    decreases n,
{
    assert(f(n - 1).degree() == d);
    if n > 1 {
        lemma_max_degree(n - 1, f, d);
    } else {
        assert(max_degree(0, f) == 0);
    }
}

/// The value, the reads, the degree and the constants of a finite product of formulas.
pub proof fn lemma_product_of<F: Field>(
    n: int,
    f: spec_fn(int) -> Formula<F>,
    k: nat,
    row: Seq<F>,
)
    requires
        n >= 0,
        forall|i: int| 0 <= i < n ==> (#[trigger] f(i)).reads(k) && f(i).degree() == 1,
    ensures
        product_of(n, f).value(row) == sums::product(n, |i: int| f(i).value(row)),
        product_of(n, f).reads(k),
        product_of(n, f).degree() == n,
        (forall|i: int| 0 <= i < n ==> (#[trigger] f(i)).canonical()) ==> product_of(
            n,
            f,
        ).canonical(),
    decreases n,
{
    if n > 0 {
        lemma_product_of(n - 1, f, k, row);
        assert(f(n - 1).reads(k) && f(n - 1).degree() == 1);
    } else {
        F::law_of_int_valid(1);
    }
}

/// The product of the columns `0, ..., d`.
pub open spec fn column_product<F: Field>(d: nat) -> Formula<F> {
    self::times(product_of(d as int, |i: int| col(i as usize)), col(d as usize))
}

/// The value, the reads, the degree and the constants of a product of columns.
pub proof fn lemma_column_product<F: Field>(d: nat, row: Seq<F>)
    requires
        row.len() == d + 1,
        d < usize::MAX,
    ensures
        column_product::<F>(d).value(row) == sums::product(d as int, |i: int| row[i]).times(
            row[d as int],
        ),
        column_product::<F>(d).reads(row.len()),
        column_product::<F>(d).degree() == d + 1,
        column_product::<F>(d).canonical(),
{
    let factor = |i: int| col::<F>(i as usize);
    reveal_with_fuel(Formula::value, 2);
    reveal_with_fuel(Formula::reads, 2);
    reveal_with_fuel(Formula::degree, 2);
    reveal_with_fuel(Formula::canonical, 2);
    lemma_product_of(d as int, factor, row.len(), row);
    sums::lemma_product_ext(d as int, |i: int| factor(i).value(row), |i: int| row[i]);
}

/// The product of the columns `0, ..., d`.
pub fn columns_product<F: Field>(d: usize) -> (r: Formula<F>)
    ensures
        r == column_product::<F>(d as nat),
{
    let ghost factor = |i: int| col::<F>(i as usize);
    let mut product: Formula<F> = Formula::constant(field::one());
    for i in 0..d
        invariant
            factor == (|i: int| col::<F>(i as usize)),
            product == product_of(i as int, factor),
    {
        product = product.product(Formula::column(i));
    }
    product.product(Formula::column(d))
}

impl<F: Field> Formula<F> {
    /// The formula that reads its columns `k` positions further.
    pub open spec fn shift(self, k: nat) -> Formula<F>
        decreases self,
    {
        match self {
            Formula::Column(i) => col((i + k) as usize),
            Formula::Constant(c) => con(c),
            Formula::Sum(a, b) => self::plus(a.shift(k), b.shift(k)),
            Formula::Difference(a, b) => self::minus(a.shift(k), b.shift(k)),
            Formula::Product(a, b) => self::times(a.shift(k), b.shift(k)),
        }
    }

    /// A copy of the formula.
    pub fn copied(&self) -> (r: Self)
        ensures
            r == *self,
        decreases self,
    {
        match self {
            Formula::Column(i) => Formula::Column(*i),
            Formula::Constant(c) => Formula::Constant(*c),
            Formula::Sum(a, b) => a.copied().sum(b.copied()),
            Formula::Difference(a, b) => a.copied().difference(b.copied()),
            Formula::Product(a, b) => a.copied().product(b.copied()),
        }
    }

    /// The formula that reads its columns `k` positions further.
    pub fn shifted(&self, k: usize) -> (r: Self)
        requires
            exists|m: nat| #[trigger] self.reads(m) && k + m <= usize::MAX,
        ensures
            r == self.shift(k as nat),
        decreases self,
    {
        let ghost m = choose|m: nat| #[trigger] self.reads(m) && k + m <= usize::MAX;
        assert(self.reads(m));
        match self {
            Formula::Column(i) => Formula::Column(*i + k),
            Formula::Constant(c) => Formula::Constant(*c),
            Formula::Sum(a, b) => {
                assert(a.reads(m) && b.reads(m));
                a.shifted(k).sum(b.shifted(k))
            },
            Formula::Difference(a, b) => {
                assert(a.reads(m) && b.reads(m));
                a.shifted(k).difference(b.shifted(k))
            },
            Formula::Product(a, b) => {
                assert(a.reads(m) && b.reads(m));
                a.shifted(k).product(b.shifted(k))
            },
        }
    }
}

/// A shifted formula on a row is the formula on the columns it was shifted to.
pub proof fn lemma_shift<F: Field>(g: Formula<F>, k: nat, m: nat, row: Seq<F>)
    requires
        g.reads(m),
        k + m <= row.len() <= usize::MAX,
    ensures
        g.shift(k).value(row) == g.value(row.subrange(k as int, (k + m) as int)),
        g.shift(k).reads(row.len()),
        g.shift(k).degree() == g.degree(),
        g.shift(k).canonical() == g.canonical(),
    decreases g,
{
    match g {
        Formula::Column(_) => {},
        Formula::Constant(_) => {},
        Formula::Sum(a, b) => {
            lemma_shift(*a, k, m, row);
            lemma_shift(*b, k, m, row);
        },
        Formula::Difference(a, b) => {
            lemma_shift(*a, k, m, row);
            lemma_shift(*b, k, m, row);
        },
        Formula::Product(a, b) => {
            lemma_shift(*a, k, m, row);
            lemma_shift(*b, k, m, row);
        },
    }
}

proof fn lemma_product_vanishes<F: Field>(n: int, row: Seq<Seq<F>>, c: int)
    requires
        0 <= n <= row.len() <= usize::MAX,
        forall|i: int| 0 <= i < n ==> univariate::vanishes(#[trigger] row[i], 2),
        forall|i: int| 0 <= i < n && i != c ==> univariate::vanishes(#[trigger] row[i], 1),
    ensures
        univariate::vanishes(
            product_of(n, |i: int| col::<F>(i as usize)).polynomial(row),
            if 0 <= c < n {
                2
            } else {
                1
            },
        ),
    decreases n,
{
    let factor = |i: int| col::<F>(i as usize);
    reveal_with_fuel(Formula::polynomial, 2);
    if n > 0 {
        lemma_product_vanishes(n - 1, row, c);
        let before = product_of(n - 1, factor).polynomial(row);
        assert(product_of(n, factor).polynomial(row) == univariate::poly_times(
            before,
            row[n - 1],
        ));
        univariate::lemma_times_vanishes(
            before,
            row[n - 1],
            if 0 <= c < n - 1 {
                2
            } else {
                1
            },
            if n - 1 == c {
                2
            } else {
                1
            },
        );
    }
}

/// A product of columns of which only one and the last vary is quadratic.
pub proof fn lemma_column_product_quadratic<F: Field>(d: nat, row: Seq<Seq<F>>, c: int)
    requires
        row.len() == d + 1,
        d < usize::MAX,
        forall|i: int| 0 <= i < row.len() ==> univariate::vanishes(#[trigger] row[i], 2),
        forall|i: int| 0 <= i < d && i != c ==> univariate::vanishes(#[trigger] row[i], 1),
    ensures
        univariate::vanishes(column_product::<F>(d).polynomial(row), 3),
{
    let factor = |i: int| col::<F>(i as usize);
    reveal_with_fuel(Formula::polynomial, 2);
    lemma_product_vanishes(d as int, row, c);
    univariate::lemma_times_vanishes(
        product_of(d as int, factor).polynomial(row),
        row[d as int],
        2,
        2,
    );
}

} // verus!
