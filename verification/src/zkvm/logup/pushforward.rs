//! The pushforward of a family of index columns, and the reduction of its claims.
//!
//! The index columns are stacked into one column `M`, whose row `i T + j` holds the index of column
//! `i` at cycle `j`. The pushforward adds the weight of every row to the entry its index points at:
//! `P(k)` is the sum of `eq(r, x)` over all rows `x` with `M(x) = k`.

use crate::field;
use crate::field::Field;
use crate::framework::poly;
use crate::framework::sums;
use crate::framework::transcript;
use crate::framework::transcript::{Challenge, FsState};
use crate::zkvm::logup::circuit;
use crate::zkvm::logup::circuit::Gate;
use crate::zkvm::logup::{index_column, lsb_eq_table, mle_eval_lsb, GkrError};
use vstd::arithmetic::power2::pow2;
use vstd::prelude::*;

verus! {

/// The index columns of a family and the point of its claims.
#[derive(Debug)]
pub struct Family<F> {
    pub name: &'static str,
    pub log_t: usize,
    pub log_d: usize,
    pub log_m: usize,
    /// The cycle point.
    pub r_row: Vec<F>,
    /// The column point.
    pub r_col: Vec<F>,
    /// One column of indices per chunk.
    pub indices: Vec<Vec<u32>>,
}

/// A family as mathematical values.
#[verifier::ext_equal]
pub struct FamilyModel<F> {
    pub log_t: nat,
    pub log_d: nat,
    pub log_m: nat,
    pub r_row: Seq<F>,
    pub r_col: Seq<F>,
    pub columns: Seq<Seq<u32>>,
}

impl<F: Field> View for Family<F> {
    type V = FamilyModel<F>;

    open spec fn view(&self) -> FamilyModel<F> {
        FamilyModel {
            log_t: self.log_t as nat,
            log_d: self.log_d as nat,
            log_m: self.log_m as nat,
            r_row: self.r_row@,
            r_col: self.r_col@,
            columns: poly::contents(self.indices@),
        }
    }
}

impl<F: Field> FamilyModel<F> {
    /// The columns and points have the announced sizes, and every index is in range.
    pub open spec fn sized(self) -> bool {
        &&& self.columns.len() == pow2(self.log_d)
        &&& columns_fit(self.columns, pow2(self.log_t), pow2(self.log_m) as int)
        &&& self.r_row.len() == self.log_t
        &&& self.r_col.len() == self.log_m
    }

    /// The tables of the family fit into memory.
    pub open spec fn bounded(self) -> bool {
        &&& pow2(self.log_t) <= usize::MAX
        &&& pow2(self.log_m) <= usize::MAX
        &&& pow2(self.log_t + self.log_d) <= usize::MAX
    }

    /// The true claims about the columns.
    pub open spec fn claims(self) -> Seq<F> {
        claims_at(self.columns, self.r_row, self.r_col)
    }

    /// The number of cycles.
    pub open spec fn cycles(self) -> int {
        pow2(self.log_t) as int
    }

    /// The weights of the stacked rows.
    pub open spec fn weights(self, drawn: Drawn<F>) -> Seq<F> {
        poly::eq_table((self.r_row + drawn.r_chunk).reverse())
    }

    /// The pushforward of the row weights.
    pub open spec fn pushed(self, drawn: Drawn<F>) -> Seq<F> {
        pushforward(self.columns, self.cycles(), self.weights(drawn), pow2(self.log_m))
    }

    /// The leaves of the circuit over the rows.
    pub open spec fn row_leaves(self, drawn: Drawn<F>) -> Seq<Gate<F>> {
        let w = self.weights(drawn);
        circuit::leaves(w, row_denominators(self.columns, self.cycles(), w.len(), drawn.alpha))
    }

    /// The leaves of the circuit over the columns.
    pub open spec fn column_leaves(self, drawn: Drawn<F>) -> Seq<Gate<F>> {
        circuit::leaves(self.pushed(drawn), column_denominators(pow2(self.log_m), drawn.alpha))
    }

    /// The combined claim is the pushforward at the column point.
    pub open spec fn identity_holds(self, drawn: Drawn<F>) -> bool {
        poly::mle(self.pushed(drawn), self.r_col.reverse()) == drawn.combined
    }
}

impl<F: Field> Family<F> {

    /// The number of chunks.
    pub fn d(&self) -> (r: usize)
        requires
            pow2(self.log_d as nat) <= usize::MAX,
        ensures
            r == pow2(self.log_d as nat),
    {
        poly::power_of_two(self.log_d)
    }
}

/// Every column has one index per cycle, and every index is in range.
pub open spec fn columns_fit(cols: Seq<Seq<u32>>, t: nat, m: int) -> bool {
    &&& forall|i: int| 0 <= i < cols.len() ==> (#[trigger] cols[i]).len() == t
    &&& forall|i: int, j: int| 0 <= i < cols.len() && 0 <= j < t ==> #[trigger] cols[i][j] < m
}

/// The index in a row of the stacked column.
pub open spec fn stacked(cols: Seq<Seq<u32>>, t: int, x: int) -> int {
    cols[x / t][x % t] as int
}

/// The stacked column.
pub open spec fn stacked_column<F: Field>(cols: Seq<Seq<u32>>, t: int, rows: nat) -> Seq<F> {
    Seq::new(rows, |x: int| F::of_int(stacked(cols, t, x)))
}

/// The claim about one column: the extension of its one-hot matrix.
pub open spec fn claim_at<F: Field>(col: Seq<u32>, r_row: Seq<F>, r_col: Seq<F>) -> F {
    sums::sum(
        col.len() as int,
        |j: int|
            poly::eq_weight(r_row.reverse(), j).times(
                poly::eq_weight(r_col.reverse(), col[j] as int),
            ),
    )
}

/// The claims about all columns.
pub open spec fn claims_at<F: Field>(cols: Seq<Seq<u32>>, r_row: Seq<F>, r_col: Seq<F>) -> Seq<F> {
    Seq::new(cols.len(), |i: int| claim_at(cols[i], r_row, r_col))
}

/// The number of claims that are combined.
pub open spec fn combined_count(n: nat, log_d: nat) -> int {
    if n <= pow2(log_d) {
        n as int
    } else {
        pow2(log_d) as int
    }
}

/// The claims combined with the weights of the chunk point.
pub open spec fn combined<F: Field>(claims: Seq<F>, r_chunk: Seq<F>) -> F {
    sums::sum(
        combined_count(claims.len(), r_chunk.len()),
        |i: int| claims[i].times(poly::eq_weight(r_chunk.reverse(), i)),
    )
}

/// What both parties draw from the transcript.
#[verifier::ext_equal]
pub struct Drawn<F> {
    pub r_chunk: Seq<F>,
    pub combined: F,
    pub alpha: F,
}

/// Absorb the claims, draw the chunk point, absorb the combined claim, draw `alpha`.
pub open spec fn draw<F: Field>(
    claims: Seq<F>,
    log_d: nat,
    s: FsState<F>,
) -> (Drawn<F>, FsState<F>) {
    let s1 = s.absorb(claims);
    let r_chunk = s1.coins(log_d);
    let c = combined(claims, r_chunk);
    let s2 = s1.squeeze_n(log_d).absorb(seq![c]);
    (Drawn { r_chunk, combined: c, alpha: s2.next() }, s2.squeeze())
}

/// What a row adds to an entry of the pushforward.
pub open spec fn row_weight<F: Field>(
    cols: Seq<Seq<u32>>,
    t: int,
    eq: Seq<F>,
    k: int,
    x: int,
) -> F {
    if stacked(cols, t, x) == k {
        eq[x]
    } else {
        F::of_int(0)
    }
}

/// The pushforward of the row weights.
pub open spec fn pushforward<F: Field>(cols: Seq<Seq<u32>>, t: int, eq: Seq<F>, m: nat) -> Seq<F> {
    Seq::new(m, |k: int| sums::sum(eq.len() as int, |x: int| row_weight(cols, t, eq, k, x)))
}

/// `alpha - M` over the rows.
pub open spec fn row_denominators<F: Field>(
    cols: Seq<Seq<u32>>,
    t: int,
    rows: nat,
    alpha: F,
) -> Seq<F> {
    Seq::new(rows, |x: int| alpha.minus(F::of_int(stacked(cols, t, x))))
}

/// `alpha - k` over the columns.
pub open spec fn column_denominators<F: Field>(m: nat, alpha: F) -> Seq<F> {
    Seq::new(m, |k: int| alpha.minus(F::of_int(k)))
}

/// Everything the prover needs for one family.
#[derive(Debug)]
pub struct PushforwardData<F> {
    pub name: &'static str,
    pub log_t: usize,
    pub log_d: usize,
    pub log_m: usize,
    /// The cycle point followed by the chunk point.
    pub r_m_row: Vec<F>,
    pub r_col: Vec<F>,
    pub alpha: F,
    pub combined_claim: F,
    pub eq_m_row: Vec<F>,
    pub leaf_denom_a: Vec<F>,
    pub pushforward: Vec<F>,
    pub leaf_denom_b: Vec<F>,
}

impl<F: Field> PushforwardData<F> {
    /// The data of a family with what was drawn for it.
    pub open spec fn prepares(self, family: FamilyModel<F>, drawn: Drawn<F>) -> bool {
        let w = family.weights(drawn);
        &&& self.log_t == family.log_t
        &&& self.log_d == family.log_d
        &&& self.log_m == family.log_m
        &&& self.r_m_row@ == family.r_row + drawn.r_chunk
        &&& self.r_col@ == family.r_col
        &&& self.alpha == drawn.alpha
        &&& self.combined_claim == drawn.combined
        &&& self.eq_m_row@ == w
        &&& self.leaf_denom_a@ == row_denominators(
            family.columns,
            family.cycles(),
            w.len(),
            drawn.alpha,
        )
        &&& self.pushforward@ == family.pushed(drawn)
        &&& self.leaf_denom_b@ == column_denominators(pow2(family.log_m), drawn.alpha)
    }

    /// The tables have the sizes of their circuits, the combined claim is the pushforward at the
    /// column point, and the pushforward holds the weight of all rows.
    pub open spec fn balanced(self) -> bool {
        let rows = pow2((self.log_t + self.log_d) as nat);
        let m = pow2(self.log_m as nat);
        &&& self.r_m_row@.len() == self.log_t + self.log_d
        &&& self.eq_m_row@.len() == rows
        &&& self.leaf_denom_a@.len() == rows
        &&& self.pushforward@.len() == m
        &&& self.leaf_denom_b@.len() == m
        &&& self.combined_claim == poly::mle(self.pushforward@, self.r_col@.reverse())
        &&& sums::sum(m as int, |k: int| self.pushforward@[k]) == sums::sum(
            rows as int,
            |x: int| self.eq_m_row@[x],
        )
    }

    /// The depth of the circuit over the rows.
    pub fn log_size_a(&self) -> (r: usize)
        requires
            self.log_t + self.log_d <= usize::MAX,
        ensures
            r == self.log_t + self.log_d,
    {
        self.log_t + self.log_d
    }

    /// The depth of the circuit over the columns.
    pub fn log_size_b(&self) -> (r: usize)
        ensures
            r == self.log_m,
    {
        self.log_m
    }
}

/// The claims about all columns.
pub fn claim_eval<F: Field>(family: &Family<F>) -> (r: Vec<F>)
    requires
        family@.sized(),
        family@.bounded(),
    ensures
        r@ == family@.claims(),
{
    let eq_row: Vec<F> = lsb_eq_table(&family.r_row);
    let eq_col: Vec<F> = lsb_eq_table(&family.r_col);
    let ghost cols = family@.columns;
    let ghost whole = claims_at(cols, family.r_row@, family.r_col@);
    let mut out: Vec<F> = Vec::new();
    for i in 0..family.indices.len()
        invariant
            family@.sized(),
            family@.bounded(),
            cols == family@.columns,
            whole == claims_at(cols, family.r_row@, family.r_col@),
            eq_row@ == poly::eq_table(family.r_row@.reverse()),
            eq_col@ == poly::eq_table(family.r_col@.reverse()),
            out@ == whole.take(i as int),
    {
        let ghost col = cols[i as int];
        assert(col == family.indices@[i as int]@);
        let ghost f = |j: int|
            poly::eq_weight(family.r_row@.reverse(), j).times(
                poly::eq_weight(family.r_col@.reverse(), col[j] as int),
            );
        let mut acc: F = field::zero();
        let len: usize = family.indices[i].len();
        for j in 0..len
            invariant
                len == family.indices@[i as int]@.len(),
                family@.sized(),
                family@.bounded(),
                cols == family@.columns,
                i < family.indices@.len(),
                col == cols[i as int],
                col == family.indices@[i as int]@,
                f == (|j: int|
                    poly::eq_weight(family.r_row@.reverse(), j).times(
                        poly::eq_weight(family.r_col@.reverse(), col[j] as int),
                    )),
                eq_row@ == poly::eq_table(family.r_row@.reverse()),
                eq_col@ == poly::eq_table(family.r_col@.reverse()),
                acc == sums::sum(j as int, f),
        {
            assert(cols[i as int].len() == pow2(family.log_t as nat));
            let k: u32 = family.indices[i][j];
            assert(cols[i as int][j as int] < pow2(family.log_m as nat));
            acc = acc.add(eq_row[j].mul(eq_col[k as usize]));
        }
        out.push(acc);
        assert(out@ =~= whole.take(i + 1));
    }
    assert(out@ =~= whole);
    out
}

/// Draw the chunk point, combine the claims, and draw `alpha`.
fn draw_challenges<F: Field, T: Challenge<F>>(
    claims: &[F],
    log_d: usize,
    transcript: &mut T,
) -> (r: (
    Vec<F>,
    F,
    F,
))
    requires
        pow2(log_d as nat) <= usize::MAX,
    ensures
        ({
            let (drawn, s) = draw(claims@, log_d as nat, old(transcript).state());
            &&& (Drawn { r_chunk: r.0@, combined: r.1, alpha: r.2 }) == drawn
            &&& r.0@.len() == log_d
            &&& final(transcript).state() == s
        }),
{
    transcript::absorb_all(transcript, claims);
    proof {
        transcript::lemma_coins_len(transcript.state(), log_d as nat);
    }
    let r_chunk: Vec<F> = transcript::challenge_vector(transcript, log_d);
    let eq_chunk: Vec<F> = lsb_eq_table(&r_chunk);
    let n: usize = if claims.len() <= eq_chunk.len() {
        claims.len()
    } else {
        eq_chunk.len()
    };
    let ghost f = |i: int| claims@[i].times(poly::eq_weight(r_chunk@.reverse(), i));
    let mut acc: F = field::zero();
    for i in 0..n
        invariant
            n <= claims@.len(),
            n <= eq_chunk@.len(),
            eq_chunk@ == poly::eq_table(r_chunk@.reverse()),
            f == (|i: int| claims@[i].times(poly::eq_weight(r_chunk@.reverse(), i))),
            acc == sums::sum(i as int, f),
    {
        acc = acc.add(claims[i].mul(eq_chunk[i]));
    }
    transcript.absorb(acc);
    let alpha: F = transcript.challenge();
    (r_chunk, acc, alpha)
}

/// The pushforward of the row weights, and the denominators of the rows.
fn scatter<F: Field>(family: &Family<F>, eq: &Vec<F>, alpha: F) -> (r: (Vec<F>, Vec<F>))
    requires
        family@.sized(),
        family@.bounded(),
        eq@.len() == pow2(family.log_t as nat) * pow2(family.log_d as nat),
    ensures
        r.0@ == pushforward(
            family@.columns,
            pow2(family.log_t as nat) as int,
            eq@,
            pow2(family.log_m as nat),
        ),
        r.1@ == row_denominators(
            family@.columns,
            pow2(family.log_t as nat) as int,
            eq@.len(),
            alpha,
        ),
{
    let m: usize = poly::power_of_two(family.log_m);
    let t: usize = poly::power_of_two(family.log_t);
    let ghost cols = family@.columns;
    let ghost dens = row_denominators(cols, t as int, eq@.len(), alpha);
    let ghost part = |k: int, n: int| sums::sum(n, |x: int| row_weight(cols, t as int, eq@, k, x));
    let mut out: Vec<F> = poly::zeros(m);
    let mut den: Vec<F> = Vec::new();
    let total: usize = eq.len();
    let d: usize = family.indices.len();
    proof {
        vstd::arithmetic::power2::lemma_pow2_pos(family.log_t as nat);
        assert(0 * t == 0) by (nonlinear_arith);
        assert(d * t == t * d) by (nonlinear_arith);
        assert(den@ =~= dens.take(0));
    }
    for i in 0..d
        invariant
            family@.sized(),
            family@.bounded(),
            cols == family@.columns,
            d == family.indices@.len(),
            t == pow2(family.log_t as nat),
            t > 0,
            m == pow2(family.log_m as nat),
            total == eq@.len(),
            total == d * t,
            part == (|k: int, n: int|
                sums::sum(n, |x: int| row_weight(cols, t as int, eq@, k, x))),
            dens == row_denominators(cols, t as int, eq@.len(), alpha),
            out@.len() == m,
            forall|k: int| 0 <= k < m ==> #[trigger] out@[k] == part(k, i * t),
            den@ == dens.take(i * t),
    {
        proof {
            poly::lemma_row_bound(i as int, d as int, t as int);
        }
        for j in 0..t
            invariant
                family@.sized(),
                family@.bounded(),
                cols == family@.columns,
                d == family.indices@.len(),
                i < d,
                t == pow2(family.log_t as nat),
                m == pow2(family.log_m as nat),
                total == eq@.len(),
                0 <= i * t,
                i * t + t <= total,
                part == (|k: int, n: int|
                    sums::sum(n, |x: int| row_weight(cols, t as int, eq@, k, x))),
                dens == row_denominators(cols, t as int, eq@.len(), alpha),
                out@.len() == m,
                forall|k: int| 0 <= k < m ==> #[trigger] out@[k] == part(k, i * t + j),
                den@ == dens.take(i * t + j),
        {
            let ghost x = i * t + j;
            let ghost before = out@;
            proof {
                poly::lemma_block_index(i as int, t as int, j as int);
            }
            assert(cols[i as int] == family.indices@[i as int]@);
            assert(cols[i as int].len() == t);
            let k: u32 = family.indices[i][j];
            assert(cols[i as int][j as int] < m);
            den.push(alpha.sub(F::from_u64(k as u64)));
            assert(den@ =~= dens.take(x + 1));
            let updated: F = out[k as usize].add(eq[i * t + j]);
            out.set(k as usize, updated);
            assert forall|a: int| 0 <= a < m implies #[trigger] out@[a] == part(a, x + 1) by {
                assert(before[a] == part(a, x));
                assert(part(a, x + 1) == part(a, x).plus(row_weight(cols, t as int, eq@, a, x)));
                sums::lemma_sum_valid(x, |y: int| row_weight(cols, t as int, eq@, a, y));
                F::law_plus_zero(part(a, x));
            }
        }
        assert((i + 1) * t == i * t + t) by (nonlinear_arith);
    }
    assert(out@ =~= pushforward(cols, t as int, eq@, m as nat));
    assert(den@ =~= dens);
    (out, den)
}

/// Combine the claims of a family and build its pushforward; fails if the combined claim is not the
/// pushforward at the column point, which never happens with the true claims.
pub fn prepare_family<F: Field, T: Challenge<F>>(
    family: &Family<F>,
    claims: &[F],
    transcript: &mut T,
) -> (r:
    Result<PushforwardData<F>, GkrError>)
    requires
        family@.sized(),
        family@.bounded(),
        claims@.len() == pow2(family.log_d as nat),
    ensures
        ({
            let (drawn, s) = draw(claims@, family.log_d as nat, old(transcript).state());
            &&& final(transcript).state() == s
            &&& r is Ok <==> family@.identity_holds(drawn)
            &&& claims@ == family@.claims() ==> r is Ok
            &&& match r {
                Ok(data) => {
                    &&& data.prepares(family@, drawn)
                    &&& data.name@ == family.name@
                    &&& data.balanced()
                },
                Err(e) => e == GkrError::MainIdentity,
            }
        }),
{
    let count: usize = claims.len();
    let (r_chunk, combined_claim, alpha) = draw_challenges(claims, family.log_d, transcript);
    let ghost drawn = draw(claims@, family.log_d as nat, old(transcript).state()).0;
    let r_m_row: Vec<F> = poly::concat(&family.r_row, &r_chunk);
    proof {
        poly::lemma_pow2_concat(family.log_t as nat, family.log_d as nat);
    }
    let eq_m_row: Vec<F> = lsb_eq_table(&r_m_row);
    let (pushed, leaf_denom_a) = scatter(family, &eq_m_row, alpha);
    let m: usize = poly::power_of_two(family.log_m);
    let ghost dens = column_denominators(m as nat, alpha);
    let mut leaf_denom_b: Vec<F> = Vec::new();
    for k in 0..m
        invariant
            dens == column_denominators(m as nat, alpha),
            leaf_denom_b@ == dens.take(k as int),
    {
        leaf_denom_b.push(alpha.sub(F::from_u64(k as u64)));
        assert(leaf_denom_b@ =~= dens.take(k + 1));
    }
    assert(leaf_denom_b@ =~= dens);
    let evaluated: F = mle_eval_lsb(&pushed, &family.r_col);
    proof {
        if claims@ == family@.claims() {
            law_true_claims(family@, old(transcript).state());
        }
    }
    if !evaluated.same(combined_claim) {
        return Err(GkrError::MainIdentity);
    }
    let data: PushforwardData<F> = PushforwardData {
        name: family.name,
        log_t: family.log_t,
        log_d: family.log_d,
        log_m: family.log_m,
        r_m_row,
        r_col: poly::copied(&family.r_col),
        alpha,
        combined_claim,
        eq_m_row,
        leaf_denom_a,
        pushforward: pushed,
        leaf_denom_b,
    };
    proof {
        law_balanced(data, family@, drawn);
    }
    Ok(data)
}

/// What the verifier needs for one family.
#[derive(Debug)]
pub struct VerifierView<F> {
    pub log_t: usize,
    pub log_d: usize,
    pub log_m: usize,
    pub r_m_row: Vec<F>,
    pub r_col: Vec<F>,
    pub alpha: F,
    pub combined_claim: F,
}

impl<F: Field> VerifierView<F> {
    /// The depth of the circuit over the rows.
    pub fn log_size_a(&self) -> (r: usize)
        requires
            self.log_t + self.log_d <= usize::MAX,
        ensures
            r == self.log_t + self.log_d,
    {
        self.log_t + self.log_d
    }

    /// The depth of the circuit over the columns.
    pub fn log_size_b(&self) -> (r: usize)
        ensures
            r == self.log_m,
    {
        self.log_m
    }
}

/// Combine the claims of a family as the prover does, without its columns.
pub fn prepare_family_verifier<F: Field, T: Challenge<F>>(
    log_t: usize,
    log_d: usize,
    log_m: usize,
    r_row: &[F],
    r_col: &[F],
    claims: &[F],
    transcript: &mut T,
) -> (r: VerifierView<F>)
    requires
        pow2(log_d as nat) <= usize::MAX,
        r_row@.len() + log_d <= usize::MAX,
    ensures
        ({
            let (drawn, s) = draw(claims@, log_d as nat, old(transcript).state());
            &&& final(transcript).state() == s
            &&& r.log_t == log_t
            &&& r.log_d == log_d
            &&& r.log_m == log_m
            &&& r.r_m_row@ == r_row@ + drawn.r_chunk
            &&& r.r_col@ == r_col@
            &&& r.alpha == drawn.alpha
            &&& r.combined_claim == drawn.combined
        }),
{
    let (r_chunk, combined_claim, alpha) = draw_challenges(claims, log_d, transcript);
    VerifierView {
        log_t,
        log_d,
        log_m,
        r_m_row: poly::concat(r_row, &r_chunk),
        r_col: poly::copied(r_col),
        alpha,
        combined_claim,
    }
}

/// Weighting the entries of the pushforward is weighting the rows by the entry they point at.
pub proof fn law_pushforward<F: Field>(
    cols: Seq<Seq<u32>>,
    t: int,
    eq: Seq<F>,
    m: nat,
    w: spec_fn(int) -> F,
)
    requires
        forall|x: int| 0 <= x < eq.len() ==> 0 <= #[trigger] stacked(cols, t, x) < m,
    ensures
        sums::sum(m as int, |k: int| pushforward(cols, t, eq, m)[k].times(w(k))) == sums::sum(
            eq.len() as int,
            |x: int| eq[x].times(w(stacked(cols, t, x))),
        ),
{
    let n = eq.len() as int;
    let p = pushforward(cols, t, eq, m);
    let cell = |k: int, x: int| row_weight(cols, t, eq, k, x).times(w(k));
    let lhs = |k: int| p[k].times(w(k));
    let by_entry = |k: int| sums::sum(n, |x: int| cell(k, x));
    assert forall|k: int| 0 <= k < m implies #[trigger] lhs(k) == by_entry(k) by {
        let f = |x: int| row_weight(cols, t, eq, k, x);
        sums::lemma_sum_scale_right(n, f, w(k));
        sums::lemma_sum_ext(n, |x: int| f(x).times(w(k)), |x: int| cell(k, x));
    }
    sums::lemma_sum_ext(m as int, lhs, by_entry);
    sums::lemma_sum_swap(m as int, n, cell);
    sums::lemma_sum_ext(m as int, by_entry, |i: int| sums::sum(n, |j: int| cell(i, j)));
    let by_row = |x: int| sums::sum(m as int, |k: int| cell(k, x));
    let rhs = |x: int| eq[x].times(w(stacked(cols, t, x)));
    assert forall|x: int| 0 <= x < n implies #[trigger] by_row(x) == rhs(x) by {
        let k = stacked(cols, t, x);
        let g = |a: int| cell(a, x);
        F::law_valid(eq[x], w(k));
        assert forall|a: int| 0 <= a < m && a != k implies #[trigger] g(a) == F::of_int(0) by {
            field::lemma_zero_times(w(a));
        }
        sums::lemma_sum_single(m as int, k, g);
        sums::lemma_sum_ext(m as int, |k: int| cell(k, x), g);
    }
    sums::lemma_sum_ext(n, by_row, rhs);
    sums::lemma_sum_ext(n, by_row, |j: int| sums::sum(m as int, |i: int| cell(i, j)));
}

/// The stacked index of a row is in range.
pub proof fn lemma_stacked_fits(cols: Seq<Seq<u32>>, t: nat, m: int, x: int)
    requires
        columns_fit(cols, t, m),
        t > 0,
        0 <= x < cols.len() * t,
    ensures
        0 <= stacked(cols, t as int, x) < m,
{
    poly::lemma_quotient_in_range(x, cols.len() as int, t as int);
    assert(0 <= x % (t as int) < t);
    assert(cols[x / (t as int)][x % (t as int)] < m);
}

/// The main identity: the true claims combine to the pushforward at the column point.
pub proof fn law_main_identity<F: Field>(
    cols: Seq<Seq<u32>>,
    r_row: Seq<F>,
    r_chunk: Seq<F>,
    r_col: Seq<F>,
)
    requires
        cols.len() == pow2(r_chunk.len()),
        columns_fit(cols, pow2(r_row.len()), pow2(r_col.len()) as int),
    ensures
        poly::mle(
            pushforward(
                cols,
                pow2(r_row.len()) as int,
                poly::eq_table((r_row + r_chunk).reverse()),
                pow2(r_col.len()),
            ),
            r_col.reverse(),
        ) == combined(claims_at(cols, r_row, r_col), r_chunk),
{
    let t = pow2(r_row.len());
    let d = cols.len();
    let m = pow2(r_col.len());
    let a = r_chunk.reverse();
    let b = r_row.reverse();
    let c = r_col.reverse();
    let eq = poly::eq_table((r_row + r_chunk).reverse());
    assert((r_row + r_chunk).reverse() =~= a + b);
    poly::lemma_pow2_concat(r_chunk.len(), r_row.len());
    vstd::arithmetic::power2::lemma_pow2_pos(r_row.len());
    assert forall|x: int| 0 <= x < eq.len() implies 0 <= #[trigger] stacked(cols, t as int, x) < m by {
        lemma_stacked_fits(cols, t, m as int, x);
    }
    let w = |k: int| poly::eq_weight(c, k);
    law_pushforward(cols, t as int, eq, m, w);
    let p = pushforward(cols, t as int, eq, m);
    sums::lemma_sum_ext(
        m as int,
        |k: int| p[k].times(w(k)),
        |i: int| p[i].times(poly::eq_weight(c, i)),
    );
    let f = |x: int| eq[x].times(w(stacked(cols, t as int, x)));
    assert(eq.len() == d * t);
    sums::lemma_sum_blocks(d as int, t as int, f);
    let blocks = |i: int| sums::sum(t as int, |j: int| f(i * t + j));
    let claims = claims_at(cols, r_row, r_col);
    let rhs = |i: int| claims[i].times(poly::eq_weight(a, i));
    assert forall|i: int| 0 <= i < d implies #[trigger] blocks(i) == rhs(i) by {
        let e = poly::eq_weight(a, i);
        let col = cols[i];
        let g = |j: int|
            poly::eq_weight(b, j).times(poly::eq_weight(c, col[j] as int));
        let cells = |j: int| f(i * t + j);
        let scaled = |j: int| e.times(g(j));
        assert forall|j: int| 0 <= j < t implies #[trigger] cells(j) == scaled(j) by {
            poly::lemma_block_index(i, t as int, j);
            poly::lemma_row_bound(i, d as int, t as int);
            poly::lemma_eq_weight_concat(a, b, i, j);
            F::law_times_assoc(e, poly::eq_weight(b, j), w(col[j] as int));
        }
        sums::lemma_sum_ext(t as int, cells, scaled);
        sums::lemma_sum_scale(t as int, e, g);
        assert(col.len() == t);
        F::law_times_comm(e, claims[i]);
        sums::lemma_sum_ext(t as int, |j: int| f(i * t + j), cells);
    }
    sums::lemma_sum_ext(d as int, blocks, rhs);
    sums::lemma_sum_ext(d as int, blocks, |a: int| sums::sum(t as int, |j: int| f(a * t + j)));
}

/// The pushforward moves all the weight and adds none: its entries sum to the row weights.
pub proof fn law_mass<F: Field>(cols: Seq<Seq<u32>>, t: int, eq: Seq<F>, m: nat)
    requires
        forall|x: int| 0 <= x < eq.len() ==> 0 <= #[trigger] stacked(cols, t, x) < m,
        field::all_valid(eq),
    ensures
        sums::sum(m as int, |k: int| pushforward(cols, t, eq, m)[k]) == sums::sum(
            eq.len() as int,
            |x: int| eq[x],
        ),
{
    let one = |k: int| F::of_int(1);
    let p = pushforward(cols, t, eq, m);
    law_pushforward(cols, t, eq, m, one);
    let f = |k: int| p[k].times(one(k));
    let g = |k: int| p[k];
    assert forall|k: int| 0 <= k < m implies #[trigger] f(k) == g(k) by {
        sums::lemma_sum_valid(eq.len() as int, |x: int| row_weight(cols, t, eq, k, x));
        F::law_times_one(p[k]);
    }
    sums::lemma_sum_ext(m as int, f, g);
    let f2 = |x: int| eq[x].times(one(stacked(cols, t, x)));
    let g2 = |x: int| eq[x];
    assert forall|x: int| 0 <= x < eq.len() implies #[trigger] f2(x) == g2(x) by {
        F::law_times_one(eq[x]);
    }
    sums::lemma_sum_ext(eq.len() as int, f2, g2);
}

/// The root of the circuit over the rows and the root of the circuit over the columns are the same
/// fraction, whatever `alpha` is.
pub proof fn law_histogram<F: Field>(cols: Seq<Seq<u32>>, t: int, eq: Seq<F>, m: nat, alpha: F)
    requires
        forall|x: int| 0 <= x < eq.len() ==> 0 <= #[trigger] stacked(cols, t, x) < m,
    ensures
        ({
            let a = circuit::total(circuit::leaves(eq, row_denominators(cols, t, eq.len(), alpha)));
            let b = circuit::total(
                circuit::leaves(pushforward(cols, t, eq, m), column_denominators(m, alpha)),
            );
            a.0.times(b.1) == b.0.times(a.1)
        }),
{
    let n = eq.len() as int;
    let p = pushforward(cols, t, eq, m);
    let ga: Seq<Gate<F>> = circuit::leaves(eq, row_denominators(cols, t, eq.len(), alpha));
    let gb: Seq<Gate<F>> = circuit::leaves(p, column_denominators(m, alpha));
    let a = circuit::total(ga);
    let b = circuit::total(gb);
    let w = |k: int| circuit::except(gb, k);
    law_pushforward(cols, t, eq, m, w);
    sums::lemma_sum_ext(
        m as int,
        |j: int| gb[j].0.times(circuit::except(gb, j)),
        |k: int| p[k].times(w(k)),
    );
    let fb = |x: int| eq[x].times(w(stacked(cols, t, x)));
    let fa = |j: int| ga[j].0.times(circuit::except(ga, j));
    assert(b.0 == sums::sum(n, fb));
    assert(a.0 == sums::sum(n, fa));
    let lhs = |x: int| fa(x).times(b.1);
    let rhs = |x: int| fb(x).times(a.1);
    assert forall|x: int| 0 <= x < n implies #[trigger] lhs(x) == rhs(x) by {
        let k = stacked(cols, t, x);
        let ea = circuit::except(ga, x);
        let eb = circuit::except(gb, k);
        let den = ga[x].1;
        assert(gb[k].1 == den);
        circuit::lemma_except(ga, x);
        circuit::lemma_except(gb, k);
        // (e ea) (den eb) = (e eb) (den ea)
        F::law_times_assoc(eq[x], ea, b.1);
        F::law_times_assoc(eq[x], eb, a.1);
        field::lemma_times_swap(ea, den, eb);
        field::lemma_times_swap(eb, den, ea);
        F::law_times_comm(ea, eb);
    }
    sums::lemma_sum_ext(n, lhs, rhs);
    sums::lemma_sum_scale_right(n, fa, b.1);
    sums::lemma_sum_scale_right(n, fb, a.1);
    sums::lemma_sum_ext(n, lhs, |i: int| fa(i).times(b.1));
    sums::lemma_sum_ext(n, rhs, |i: int| fb(i).times(a.1));
}

/// The leaves of both circuits are canonical.
pub proof fn lemma_leaves_valid<F: Field>(
    cols: Seq<Seq<u32>>,
    t: int,
    eq: Seq<F>,
    m: nat,
    alpha: F,
    r: Seq<F>,
)
    requires
        eq == poly::eq_table(r.reverse()),
    ensures
        circuit::gates_valid(
            circuit::leaves(eq, row_denominators(cols, t, eq.len(), alpha)),
        ),
        circuit::gates_valid(
            circuit::leaves(pushforward(cols, t, eq, m), column_denominators(m, alpha)),
        ),
{
    poly::lemma_eq_table_valid(r.reverse());
    let ga = circuit::leaves(eq, row_denominators(cols, t, eq.len(), alpha));
    let gb = circuit::leaves(pushforward(cols, t, eq, m), column_denominators(m, alpha));
    assert forall|x: int| 0 <= x < ga.len() implies (#[trigger] ga[x]).0.valid() && ga[x].1.valid() by {
        F::law_valid(alpha, F::of_int(stacked(cols, t, x)));
    }
    assert forall|k: int| 0 <= k < gb.len() implies (#[trigger] gb[k]).0.valid() && gb[k].1.valid() by {
        F::law_valid(alpha, F::of_int(k));
        sums::lemma_sum_valid(eq.len() as int, |x: int| row_weight(cols, t, eq, k, x));
    }
}

/// The extension of a column subtracted from a constant is the constant minus the extension.
proof fn lemma_mle_subtracted<F: Field>(alpha: F, p: Seq<F>, q: Seq<F>, r: Seq<F>)
    requires
        p.len() == pow2(r.len()),
        q.len() == p.len(),
        alpha.valid(),
        forall|i: int| 0 <= i < p.len() ==> #[trigger] q[i] == alpha.minus(p[i]),
    ensures
        poly::mle(q, r) == alpha.minus(poly::mle(p, r)),
{
    let n = p.len() as int;
    let constant = Seq::new(p.len(), |i: int| alpha);
    poly::lemma_mle_constant(alpha, constant, r);
    let fc = |i: int| constant[i].times(poly::eq_weight(r, i));
    let fp = |i: int| p[i].times(poly::eq_weight(r, i));
    let fq = |i: int| q[i].times(poly::eq_weight(r, i));
    let diff = |i: int| fc(i).minus(fp(i));
    assert forall|i: int| 0 <= i < n implies #[trigger] fq(i) == diff(i) by {
        let e = poly::eq_weight(r, i);
        assert(q[i] == alpha.minus(p[i]));
        field::lemma_distrib_minus(e, alpha, p[i]);
        F::law_times_comm(e, alpha);
        F::law_times_comm(e, p[i]);
        F::law_times_comm(e, q[i]);
    }
    sums::lemma_sum_ext(n, fq, diff);
    sums::lemma_sum_minus(n, fc, fp);
    sums::lemma_sum_ext(n, diff, |i: int| fc(i).minus(fp(i)));
}

/// The extension of `alpha - k` is `alpha` minus the extension of the indices.
pub proof fn lemma_column_denominators<F: Field>(n: nat, alpha: F, r: Seq<F>)
    requires
        r.len() == n,
        alpha.valid(),
    ensures
        poly::mle(column_denominators(pow2(n), alpha), r) == alpha.minus(
            poly::mle(index_column::<F>(n), r),
        ),
{
    lemma_mle_subtracted(alpha, index_column::<F>(n), column_denominators(pow2(n), alpha), r);
}

/// The stacked indices are `alpha` minus the row denominators.
pub proof fn lemma_row_denominators<F: Field>(
    cols: Seq<Seq<u32>>,
    t: int,
    n: nat,
    alpha: F,
    r: Seq<F>,
)
    requires
        r.len() == n,
        alpha.valid(),
    ensures
        alpha.minus(poly::mle(row_denominators(cols, t, pow2(n), alpha), r)) == poly::mle(
            stacked_column::<F>(cols, t, pow2(n)),
            r,
        ),
{
    let dense = stacked_column::<F>(cols, t, pow2(n));
    lemma_mle_subtracted(alpha, dense, row_denominators(cols, t, pow2(n), alpha), r);
    poly::lemma_mle_valid(dense, r);
    field::lemma_minus_twice(alpha, poly::mle(dense, r));
}

/// The true claims of a family combine to its pushforward at the column point, whatever is drawn.
pub proof fn law_true_claims<F: Field>(family: FamilyModel<F>, s: FsState<F>)
    requires
        family.sized(),
    ensures
        family.identity_holds(draw(family.claims(), family.log_d, s).0),
{
    transcript::lemma_coins_len(s.absorb(family.claims()), family.log_d);
    let drawn = draw(family.claims(), family.log_d, s).0;
    law_main_identity(family.columns, family.r_row, drawn.r_chunk, family.r_col);
}

/// The data of a family whose main identity holds is balanced.
pub proof fn law_balanced<F: Field>(
    data: PushforwardData<F>,
    family: FamilyModel<F>,
    drawn: Drawn<F>,
)
    requires
        family.sized(),
        drawn.r_chunk.len() == family.log_d,
        family.identity_holds(drawn),
        data.prepares(family, drawn),
    ensures
        data.balanced(),
{
    let t = pow2(family.log_t);
    let m = pow2(family.log_m);
    let w = family.weights(drawn);
    poly::lemma_pow2_concat(family.log_d, family.log_t);
    vstd::arithmetic::power2::lemma_pow2_pos(family.log_t);
    poly::lemma_eq_table_valid((family.r_row + drawn.r_chunk).reverse());
    assert forall|x: int| 0 <= x < w.len() implies 0 <= #[trigger] stacked(
        family.columns,
        t as int,
        x,
    ) < m by {
        lemma_stacked_fits(family.columns, t, m as int, x);
    }
    law_mass(family.columns, t as int, w, m);
    sums::lemma_sum_ext(
        m as int,
        |k: int| data.pushforward@[k],
        |k: int| pushforward(family.columns, t as int, w, m)[k],
    );
    sums::lemma_sum_ext(w.len() as int, |x: int| data.eq_m_row@[x], |x: int| w[x]);
}

} // verus!
