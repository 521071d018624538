//! Range check: every entry of a group of columns is below a power of two.
//!
//! The columns are stacked into one family, padded with columns of zeros, and the pushforward proof
//! of the family shows that every entry indexes the table of all numbers in the range.

use crate::field::Field;
use crate::framework::accumulator::{Claims, Openings};
use crate::framework::bits;
use crate::framework::poly;
use crate::framework::sumcheck;
use crate::framework::transcript;
use crate::framework::transcript::{FsState, ProverFs, VerifierFs};
use crate::zkvm::access;
use crate::zkvm::logup::driver;
use crate::zkvm::logup::driver::{prove_family, verify_family, FamilyShape, FamilyVerifierParams};
use crate::zkvm::logup::gkr;
use crate::zkvm::logup::gkr::GkrProof;
use crate::zkvm::logup::pushforward::{claim_eval, Family, FamilyModel};
use crate::zkvm::logup::GkrError;
use vstd::arithmetic::power2::pow2;
use vstd::prelude::*;

verus! {

/// Why a range check fails.
#[derive(Clone, Copy, Debug, PartialEq, Eq, Structural)]
pub enum RangeCheckError {
    /// An entry is out of range.
    OutOfRange,
    /// The pushforward proof failed.
    Gkr(GkrError),
}

/// The claims about the columns; the messages of the proof are in the transcript.
#[derive(Debug)]
pub struct RangeCheckProof<F> {
    pub gkr: GkrProof,
    pub claims: Vec<F>,
}

/// Every entry of every column is below `m`.
pub open spec fn in_range(cols: Seq<Seq<u32>>, m: int) -> bool {
    forall|i: int, j: int|
        0 <= i < cols.len() && 0 <= j < cols[i].len() ==> #[trigger] cols[i][j] < m
}

/// The columns, padded with columns of zeros to a power of two.
pub open spec fn padded(cols: Seq<Seq<u32>>, t: nat) -> Seq<Seq<u32>> {
    Seq::new(
        bits::cover(cols.len()),
        |i: int|
            if i < cols.len() {
                cols[i]
            } else {
                Seq::new(t, |j: int| 0u32)
            },
    )
}

/// The stacked family at the points that are drawn for it, and the transcript after.
pub open spec fn drawn_family<F: Field>(
    cols: Seq<Seq<u32>>,
    log_t: nat,
    log_m: nat,
    s: FsState<F>,
) -> (
    FamilyModel<F>,
    FsState<F>,
) {
    let s1 = s.squeeze_n(log_t);
    (
        FamilyModel {
            log_t,
            log_d: bits::ceil_log2(cols.len()),
            log_m,
            r_row: s.coins(log_t),
            r_col: s1.coins(log_m),
            columns: padded(cols, pow2(log_t)),
        },
        s1.squeeze_n(log_m),
    )
}

/// The claims or an error, the records and the transcript of an honest range check.
pub open spec fn honest<F: Field>(
    cols: Seq<Seq<u32>>,
    log_t: nat,
    log_m: nat,
    index: int,
    acc: Claims<F>,
    s: FsState<F>,
) -> (Result<Seq<F>, RangeCheckError>, Claims<F>, FsState<F>) {
    if !in_range(cols, pow2(log_m) as int) {
        (Err(RangeCheckError::OutOfRange), acc, s)
    } else {
        let (family, s1) = drawn_family(cols, log_t, log_m, s);
        let (r, acc1, s2) = driver::honest_family(family, family.claims(), index, acc, s1);
        match r {
            Ok(_) => (Ok(family.claims()), acc1, s2),
            Err(e) => (Err(RangeCheckError::Gkr(e)), acc1, s2),
        }
    }
}

/// The content of a result.
pub open spec fn claims_of<F: Field>(r: Result<RangeCheckProof<F>, RangeCheckError>) -> Result<
    Seq<F>,
    RangeCheckError,
> {
    match r {
        Ok(p) => Ok(p.claims@),
        Err(e) => Err(e),
    }
}

/// Whether every entry is below `m`.
fn check_range(columns: &Vec<Vec<u32>>, m: usize) -> (r: bool)
    ensures
        r == in_range(poly::contents(columns@), m as int),
{
    let ghost cols = poly::contents(columns@);
    for i in 0..columns.len()
        invariant
            cols == poly::contents(columns@),
            forall|a: int, j: int|
                0 <= a < i && 0 <= j < cols[a].len() ==> #[trigger] cols[a][j] < m,
    {
        let len: usize = columns[i].len();
        assert(cols[i as int] == columns@[i as int]@);
        for j in 0..len
            invariant
                i < columns@.len(),
                cols == poly::contents(columns@),
                cols[i as int] == columns@[i as int]@,
                len == columns@[i as int]@.len(),
                forall|b: int| 0 <= b < j ==> #[trigger] cols[i as int][b] < m,
        {
            if columns[i][j] as usize >= m {
                assert(cols[i as int][j as int] >= m);
                return false;
            }
        }
    }
    true
}

/// The columns, padded with columns of zeros to a power of two.
fn pad_columns(columns: &Vec<Vec<u32>>, t: usize, d: usize) -> (r: Vec<Vec<u32>>)
    requires
        d == bits::cover(columns@.len()),
    ensures
        poly::contents(r@) == padded(poly::contents(columns@), t as nat),
{
    let ghost cols = poly::contents(columns@);
    let ghost whole = padded(cols, t as nat);
    let mut out: Vec<Vec<u32>> = Vec::new();
    assert(poly::contents(out@) =~= whole.take(0));
    for i in 0..d
        invariant
            d == bits::cover(columns@.len()),
            cols == poly::contents(columns@),
            whole == padded(cols, t as nat),
            poly::contents(out@) == whole.take(i as int),
    {
        let ghost before = out@;
        let mut column: Vec<u32> = Vec::new();
        if i < columns.len() {
            let len: usize = columns[i].len();
            for j in 0..len
                invariant
                    i < columns@.len(),
                    len == columns@[i as int]@.len(),
                    column@ == columns@[i as int]@.take(j as int),
            {
                column.push(columns[i][j]);
                assert(column@ =~= columns@[i as int]@.take(j + 1));
            }
            assert(column@ =~= whole[i as int]);
        } else {
            for j in 0..t
                invariant
                    column@ == Seq::new(j as nat, |b: int| 0u32),
            {
                column.push(0);
                assert(column@ =~= Seq::new((j + 1) as nat, |b: int| 0u32));
            }
            assert(column@ =~= whole[i as int]);
        }
        out.push(column);
        assert(poly::contents(out@) =~= poly::contents(before).push(whole[i as int]));
        assert(whole.take(i + 1) =~= whole.take(i as int).push(whole[i as int]));
    }
    assert(poly::contents(out@) =~= whole);
    out
}

/// The stacked family of columns in range has the announced sizes.
proof fn lemma_family_sized<F: Field>(cols: Seq<Seq<u32>>, log_t: nat, log_m: nat, s: FsState<F>)
    requires
        in_range(cols, pow2(log_m) as int),
        forall|i: int| 0 <= i < cols.len() ==> (#[trigger] cols[i]).len() == pow2(log_t),
    ensures
        drawn_family(cols, log_t, log_m, s).0.sized(),
        drawn_family(cols, log_t, log_m, s).1.tape == s.tape,
        drawn_family(cols, log_t, log_m, s).1.coin == s.coin,
{
    transcript::lemma_coins_len(s, log_t);
    transcript::lemma_coins_len(s.squeeze_n(log_t), log_m);
    vstd::arithmetic::power2::lemma_pow2_pos(log_m);
    bits::law_cover(cols.len());
    let all = padded(cols, pow2(log_t));
    assert forall|i: int, j: int| 0 <= i < all.len() && 0 <= j < pow2(log_t) implies #[trigger] all[i][j]
        < pow2(log_m) by {
        if i < cols.len() {
            assert(cols[i].len() == pow2(log_t));
            assert(cols[i][j] < pow2(log_m));
        }
    }
}

/// Prove that every entry of every column is below `2^log_m`.
pub fn prove_range_check<F: Field, T: ProverFs<F>>(
    columns: &Vec<Vec<u32>>,
    log_t: usize,
    log_m: usize,
    base_index: usize,
    accumulator: &mut Openings<F>,
    transcript: &mut T,
) -> (r: Result<RangeCheckProof<F>, RangeCheckError>)
    requires
        columns@.len() > 0,
        forall|i: int| 0 <= i < columns@.len() ==> (#[trigger] columns@[i])@.len() == pow2(log_t as nat),
        pow2(log_t as nat) <= usize::MAX,
        pow2(log_m as nat) <= usize::MAX,
        pow2(log_t as nat + bits::ceil_log2(columns@.len())) <= usize::MAX,
    ensures
        (claims_of(r), final(accumulator)@, final(transcript).state()) == honest(
            poly::contents(columns@),
            log_t as nat,
            log_m as nat,
            base_index as int,
            old(accumulator)@,
            old(transcript).state(),
        ),
{
    let ghost cols = poly::contents(columns@);
    let ghost s = transcript.state();
    let t: usize = poly::power_of_two(log_t);
    let m: usize = poly::power_of_two(log_m);
    if !check_range(columns, m) {
        return Err(RangeCheckError::OutOfRange);
    }
    let log_d: usize = bits::log2_ceil(columns.len());
    proof {
        poly::lemma_pow2_monotone(log_d as nat, log_t as nat + log_d as nat);
        assert forall|i: int| 0 <= i < cols.len() implies (#[trigger] cols[i]).len() == pow2(
            log_t as nat,
        ) by {
            assert(columns@[i]@.len() == pow2(log_t as nat));
        }
        lemma_family_sized(cols, log_t as nat, log_m as nat, s);
    }
    let d: usize = poly::power_of_two(log_d);
    let indices: Vec<Vec<u32>> = pad_columns(columns, t, d);
    let r_row: Vec<F> = transcript::challenge_vector(transcript, log_t);
    let r_col: Vec<F> = transcript::challenge_vector(transcript, log_m);
    let family: Family<F> = Family {
        name: "RangeCheck",
        log_t,
        log_d,
        log_m,
        r_row,
        r_col,
        indices,
    };
    assert(family@ == drawn_family(cols, log_t as nat, log_m as nat, s).0);
    let claims: Vec<F> = claim_eval(&family);
    match prove_family(&family, &claims, base_index, accumulator, transcript) {
        Err(e) => Err(RangeCheckError::Gkr(e)),
        Ok((gkr, _pushed)) => Ok(RangeCheckProof { gkr, claims }),
    }
}

/// The verdict on a range check, the recorded claims, and the transcript after it.
pub open spec fn verdict<F: Field>(
    claims: Seq<F>,
    num_columns: nat,
    log_t: nat,
    log_m: nat,
    index: int,
    acc: Claims<F>,
    s: FsState<F>,
) -> (Result<(), RangeCheckError>, Claims<F>, FsState<F>) {
    let s1 = s.squeeze_n(log_t);
    let shape = FamilyShape {
        log_t,
        log_d: bits::ceil_log2(num_columns),
        log_m,
        r_row: s.coins(log_t),
        r_col: s1.coins(log_m),
    };
    let (r, acc1, s2) = driver::verdict_family(shape, claims, index, acc, s1.squeeze_n(log_m));
    match r {
        Ok(_) => (Ok(()), acc1, s2),
        Err(e) => (Err(RangeCheckError::Gkr(e)), acc1, s2),
    }
}

/// Verify a range check of the given number of columns.
pub fn verify_range_check<F: Field, T: VerifierFs<F>>(
    proof: &RangeCheckProof<F>,
    log_t: usize,
    log_m: usize,
    num_columns: usize,
    base_index: usize,
    accumulator: &mut Openings<F>,
    transcript: &mut T,
) -> (r: Result<(), RangeCheckError>)
    requires
        log_t + bits::ceil_log2(num_columns as nat) <= usize::MAX,
        bits::cover(num_columns as nat) <= usize::MAX,
    ensures
        (r, final(accumulator)@, final(transcript).state()) == verdict(
            proof.claims@,
            num_columns as nat,
            log_t as nat,
            log_m as nat,
            base_index as int,
            old(accumulator)@,
            old(transcript).state(),
        ),
{
    proof {
        transcript::lemma_coins_len(transcript.state(), log_t as nat);
    }
    let log_d: usize = bits::log2_ceil(num_columns);
    let r_row: Vec<F> = transcript::challenge_vector(transcript, log_t);
    let r_col: Vec<F> = transcript::challenge_vector(transcript, log_m);
    let params: FamilyVerifierParams<F> = FamilyVerifierParams { log_t, log_d, log_m, r_row, r_col };
    match verify_family(
        &params,
        &proof.claims,
        &proof.gkr,
        base_index,
        accumulator,
        transcript,
    ) {
        Err(e) => Err(RangeCheckError::Gkr(e)),
        Ok(_) => Ok(()),
    }
}

/// Completeness: columns in range are proved, the proof is accepted, and both parties record the
/// same claims.
pub proof fn law_complete<F: Field>(
    cols: Seq<Seq<u32>>,
    log_t: nat,
    log_m: nat,
    index: int,
    acc: Claims<F>,
    p: FsState<F>,
    v: FsState<F>,
    whole: Seq<F>,
)
    requires
        in_range(cols, pow2(log_m) as int),
        forall|i: int| 0 <= i < cols.len() ==> (#[trigger] cols[i]).len() == pow2(log_t),
        p.canonical(),
        transcript::synced(p, v, whole),
        honest(cols, log_t, log_m, index, acc, p).2.tape.is_prefix_of(whole),
    ensures
        ({
            let (made, acc1, p1) = honest(cols, log_t, log_m, index, acc, p);
            &&& made is Ok
            &&& ({
                let (r, acc2, v1) = verdict(
                    made->Ok_0,
                    cols.len(),
                    log_t,
                    log_m,
                    index,
                    acc,
                    v,
                );
                &&& r is Ok
                &&& acc2 == acc1
                &&& transcript::synced(p1, v1, whole)
            })
        }),
{
    let (family, p1) = drawn_family(cols, log_t, log_m, p);
    lemma_family_sized(cols, log_t, log_m, p);
    transcript::lemma_coins_len(p, log_t);
    transcript::lemma_synced_squeeze_n(p, v, whole, log_t);
    let pm = p.squeeze_n(log_t);
    let vm = v.squeeze_n(log_t);
    transcript::lemma_coins_len(pm, log_m);
    transcript::lemma_synced_squeeze_n(pm, vm, whole, log_m);
    driver::law_family_complete(family, index, acc, p1, vm.squeeze_n(log_m), whole);
}

/// An entry that does not fit is refused before anything is sent.
pub proof fn law_out_of_range<F: Field>(
    cols: Seq<Seq<u32>>,
    log_t: nat,
    log_m: nat,
    index: int,
    acc: Claims<F>,
    s: FsState<F>,
    i: int,
    j: int,
)
    requires
        0 <= i < cols.len(),
        0 <= j < cols[i].len(),
        cols[i][j] >= pow2(log_m),
    ensures
        honest(cols, log_t, log_m, index, acc, s) == (
            Err::<Seq<F>, RangeCheckError>(RangeCheckError::OutOfRange),
            acc,
            s,
        ),
{
}

/// An accepted range check is refused when any one element of the rounds of a layer of either circuit
/// is changed.
pub proof fn law_changed_proof_refused<F: Field>(
    claims: Seq<F>,
    num_columns: nat,
    log_t: nat,
    log_m: nat,
    index: int,
    acc: Claims<F>,
    s: FsState<F>,
    m: nat,
    j: int,
    delta: F,
)
    requires
        verdict(claims, num_columns, log_t, log_m, index, acc, s).0 is Ok,
        ({
            let depth_a = log_t + bits::ceil_log2(num_columns);
            ||| m < depth_a && gkr::in_layer(0, m, j)
            ||| m < log_m && gkr::in_layer(gkr::circuit_read(depth_a), m, j)
        }),
        j < s.tape.len(),
        delta.valid(),
        delta != F::of_int(0),
    ensures
        verdict(
            claims,
            num_columns,
            log_t,
            log_m,
            index,
            acc,
            sumcheck::changed(s, j, delta),
        ).0 == Err::<(), RangeCheckError>(RangeCheckError::Gkr(GkrError::Sumcheck)),
{
    let s1 = s.squeeze_n(log_t);
    sumcheck::lemma_changed_coins(s, j, delta, log_t);
    sumcheck::lemma_changed_coins(s1, j, delta, log_m);
    transcript::lemma_coins_len(s, log_t);
    transcript::lemma_coins_len(s1, log_m);
    driver::law_changed_family_refused(
        FamilyShape {
            log_t,
            log_d: bits::ceil_log2(num_columns),
            log_m,
            r_row: s.coins(log_t),
            r_col: s1.coins(log_m),
        },
        claims,
        index,
        acc,
        s1.squeeze_n(log_m),
        m,
        j,
        delta,
    );
}

/// The whole run between fresh parties with one label: columns in range are proved, the proof is
/// accepted, the verifier reads all of it, and both parties record the same claims.
pub proof fn law_round_trip<F: Field>(
    cols: Seq<Seq<u32>>,
    log_t: nat,
    log_m: nat,
    index: int,
    label: Seq<u8>,
)
    requires
        in_range(cols, pow2(log_m) as int),
        forall|i: int| 0 <= i < cols.len() ==> (#[trigger] cols[i]).len() == pow2(log_t),
    ensures
        ({
            let none = Claims::<F>::empty();
            let p0 = transcript::fresh(label, Seq::empty());
            let (made, recorded, p) = honest(cols, log_t, log_m, index, none, p0);
            let (r, acc, v) = verdict(
                made->Ok_0,
                cols.len(),
                log_t,
                log_m,
                index,
                none,
                transcript::fresh(label, p.tape),
            );
            &&& made is Ok
            &&& r is Ok
            &&& acc == recorded
            &&& v.tape.len() == 0
        }),
{
    let none = Claims::<F>::empty();
    let p0 = transcript::fresh::<F>(label, Seq::empty());
    let p = honest(cols, log_t, log_m, index, none, p0).2;
    let v = transcript::fresh(label, p.tape);
    transcript::law_fresh(label, p.tape);
    law_complete(cols, log_t, log_m, index, none, p0, v, p.tape);
}

/// The claims of a range check are those of the columns, in their order, and of columns of zeros behind
/// them up to a power of two: each the extension of the column's one-hot matrix at the points drawn
/// first, the one of the cycles before the one of the numbers.
pub proof fn law_claims<F: Field>(
    cols: Seq<Seq<u32>>,
    log_t: nat,
    log_m: nat,
    index: int,
    acc: Claims<F>,
    p: FsState<F>,
    v: FsState<F>,
    whole: Seq<F>,
    i: int,
)
    requires
        forall|a: int, j: int|
            0 <= a < cols.len() && 0 <= j < cols[a].len() ==> #[trigger] cols[a][j] < pow2(log_m),
        forall|a: int| 0 <= a < cols.len() ==> (#[trigger] cols[a]).len() == pow2(log_t),
        p.canonical(),
        transcript::synced(p, v, whole),
        honest(cols, log_t, log_m, index, acc, p).2.tape.is_prefix_of(whole),
        0 <= i < bits::cover(cols.len()),
    ensures
        ({
            let made = honest(cols, log_t, log_m, index, acc, p).0;
            let r_row = p.coins(log_t);
            let r_col = p.squeeze_n(log_t).coins(log_m);
            let column = if i < cols.len() {
                cols[i]
            } else {
                Seq::new(pow2(log_t), |j: int| 0u32)
            };
            &&& made is Ok
            &&& made->Ok_0.len() == bits::cover(cols.len())
            &&& made->Ok_0[i] == poly::mle(
                access::one_hot::<F>(access::marks(column), pow2(log_m)),
                r_col.reverse() + r_row.reverse(),
            )
        }),
{
    law_complete(cols, log_t, log_m, index, acc, p, v, whole);
    let column = padded(cols, pow2(log_t))[i];
    let r_row = p.coins(log_t);
    let r_col = p.squeeze_n(log_t).coins(log_m);
    transcript::lemma_coins_len(p, log_t);
    transcript::lemma_coins_len(p.squeeze_n(log_t), log_m);
    vstd::arithmetic::power2::lemma_pow2_pos(log_m);
    assert(r_row.reverse().reverse() =~= r_row);
    assert(r_col.reverse().reverse() =~= r_col);
    driver::law_hand_over(column, r_col.reverse(), r_row.reverse());
}

} // verus!
