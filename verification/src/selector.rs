//! Guess selection: the candidate whose worst answer eliminates the most.
//!
//! An answer to a guess splits the pool into buckets, one for each pair of
//! black and white pegs: the bucket of a pair holds the candidates against
//! which the guess earns that pair. Whatever the secret is, the answer leaves
//! one bucket standing. The quality of a guess is what it eliminates at the
//! least: the size of the pool less the size of its largest bucket.
//!
//! The pair of all pegs but one black and one white names a bucket that is
//! always empty (`lemma_near_miss_bucket_is_empty`). It is counted like every
//! other bucket: as an empty one it never is the largest of a pool that holds
//! a row, so nothing is done for it alone.

use crate::feedback::{feedback, lemma_near_miss_has_no_white, score};
use crate::pruning::{consistent_rows, earns};
use crate::row::{is_pool, rows_have_size, Row};
use rayon::iter::{IntoParallelRefIterator, ParallelIterator};
use vstd::prelude::*;

verus! {

/// How the candidates of a pool are rated.
#[derive(Clone, Copy, Debug, PartialEq, Eq)]
pub enum Strategy {
    /// One candidate after the other, on the calling thread.
    Sequential,
    /// The candidates shared out to the threads of a pool of workers.
    Parallel,
}

/// The number of rows of `pool` against which `guess` earns `pegs`.
pub open spec fn bucket_size(
    pool: Seq<Seq<u32>>,
    guess: Seq<u32>,
    pegs: (nat, nat),
    value_count: nat,
) -> nat {
    consistent_rows(pool, guess, pegs, value_count).len()
}

/// `size` is the size of a largest bucket of `guess` on `pool`: no bucket is
/// larger, and one has that size.
pub open spec fn is_largest_bucket(
    pool: Seq<Seq<u32>>,
    guess: Seq<u32>,
    value_count: nat,
    size: nat,
) -> bool {
    &&& forall|pegs: (nat, nat)| #[trigger] bucket_size(pool, guess, pegs, value_count) <= size
    &&& exists|pegs: (nat, nat)| #[trigger] bucket_size(pool, guess, pegs, value_count) == size
}

/// The size of the largest bucket of `guess` on `pool`.
pub open spec fn largest_bucket(pool: Seq<Seq<u32>>, guess: Seq<u32>, value_count: nat) -> nat {
    choose|size: nat| is_largest_bucket(pool, guess, value_count, size)
}

/// The quality of `guess` on `pool`: the number of rows that its least
/// informative answer eliminates.
pub open spec fn quality(pool: Seq<Seq<u32>>, guess: Seq<u32>, value_count: nat) -> nat {
    (pool.len() - largest_bucket(pool, guess, value_count)) as nat
}

/// The row at `index` is the best guess of `pool`: no row has a higher
/// quality, and every row before it has a lower one.
pub open spec fn is_best_guess(pool: Seq<Seq<u32>>, value_count: nat, index: int) -> bool {
    &&& 0 <= index < pool.len()
    &&& forall|j: int|
        0 <= j < pool.len() ==> #[trigger] quality(pool, pool[j], value_count) <= quality(
            pool,
            pool[index],
            value_count,
        )
    &&& forall|j: int|
        0 <= j < index ==> #[trigger] quality(pool, pool[j], value_count) < quality(
            pool,
            pool[index],
            value_count,
        )
}

/// The best guess of a pool is one row: two indices that both qualify are
/// the same.
pub proof fn lemma_best_guess_is_unique(
    pool: Seq<Seq<u32>>,
    value_count: nat,
    first: int,
    second: int,
)
    requires
        is_best_guess(pool, value_count, first),
        is_best_guess(pool, value_count, second),
    ensures
        first == second,
{
    if first < second {
        assert(quality(pool, pool[first], value_count) < quality(
            pool,
            pool[second],
            value_count,
        ));
    } else if second < first {
        assert(quality(pool, pool[second], value_count) < quality(
            pool,
            pool[first],
            value_count,
        ));
    }
}

/// The largest bucket has one size only.
pub proof fn lemma_largest_bucket_is(
    pool: Seq<Seq<u32>>,
    guess: Seq<u32>,
    value_count: nat,
    size: nat,
)
    requires
        is_largest_bucket(pool, guess, value_count, size),
    ensures
        largest_bucket(pool, guess, value_count) == size,
        size <= pool.len(),
{
    let chosen = largest_bucket(pool, guess, value_count);
    assert(is_largest_bucket(pool, guess, value_count, chosen));
    let at_size = choose|pegs: (nat, nat)|
        #[trigger] bucket_size(pool, guess, pegs, value_count) == size;
    let at_chosen = choose|pegs: (nat, nat)|
        #[trigger] bucket_size(pool, guess, pegs, value_count) == chosen;
    assert(bucket_size(pool, guess, at_size, value_count) <= chosen);
    assert(bucket_size(pool, guess, at_chosen, value_count) <= size);
    pool.lemma_filter_len(earns(guess, at_size, value_count));
}

/// No candidate falls into the bucket of all pegs but one black and one
/// white: a guess cannot miss in one position and still hold the missing
/// symbol elsewhere.
pub proof fn lemma_near_miss_bucket_is_empty(
    pool: Seq<Seq<u32>>,
    guess: Seq<u32>,
    value_count: nat,
)
    requires
        rows_have_size(pool, guess.len()),
        guess.len() >= 1,
    ensures
        bucket_size(pool, guess, ((guess.len() - 1) as nat, 1nat), value_count) == 0,
{
    let pegs = ((guess.len() - 1) as nat, 1nat);
    let keep = earns(guess, pegs, value_count);
    assert forall|i: int| 0 <= i < pool.len() implies !keep(#[trigger] pool[i]) by {
        if feedback(guess, pool[i], value_count).0 + 1 == guess.len() {
            lemma_near_miss_has_no_white(guess, pool[i], value_count);
        }
    }
    assert(pool.all(|candidate: Seq<u32>| !keep(candidate)));
    pool.lemma_all_neg_filter_empty(keep);
}

/// A table of `side` rows of `side` zeros.
fn zero_counts(side: usize) -> (counts: Vec<Vec<usize>>)
    ensures
        counts@.len() == side,
        forall|b: int| 0 <= b < side ==> (#[trigger] counts@[b])@.len() == side,
        forall|b: int, w: int| 0 <= b < side && 0 <= w < side ==> counts@[b]@[w] == 0,
{
    let mut counts: Vec<Vec<usize>> = Vec::new();
    let mut b: usize = 0;
    while b < side
        invariant
            b <= side,
            counts@.len() == b,
            forall|c: int| 0 <= c < b ==> (#[trigger] counts@[c])@.len() == side,
            forall|c: int, w: int| 0 <= c < b && 0 <= w < side ==> counts@[c]@[w] == 0,
        decreases side - b,
    {
        let mut line: Vec<usize> = Vec::new();
        let mut w: usize = 0;
        while w < side
            invariant
                w <= side,
                line@.len() == w,
                forall|x: int| 0 <= x < w ==> line@[x] == 0,
            decreases side - w,
        {
            line.push(0);
            w += 1;
        }
        counts.push(line);
        b += 1;
    }
    counts
}

/// Rates `guess` on `pool`: the number of rows that the guess eliminates
/// whatever the answer is.
///
/// Each row of the pool is scored once as the secret and counted in the
/// bucket of its pegs; the result is the size of the pool less the largest
/// count. The rows of the pool must have the length of the guess, and that
/// length must be below `u32::MAX`.
pub fn guess_quality(pool: &Vec<Row>, guess: &[u32], value_count: u32) -> (eliminated: usize)
    requires
        rows_have_size(pool.deep_view(), guess@.len()),
        guess@.len() < u32::MAX,
    ensures
        eliminated == quality(pool.deep_view(), guess@, value_count as nat),
        is_largest_bucket(
            pool.deep_view(),
            guess@,
            value_count as nat,
            (pool@.len() - eliminated) as nat,
        ),
        eliminated <= pool@.len(),
{
    let ghost rows = pool.deep_view();
    let ghost vc = value_count as nat;
    let side = guess.len() + 1;
    let mut counts = zero_counts(side);
    let mut largest: usize = 0;
    let n = pool.len();
    let mut i: usize = 0;
    proof {
        assert forall|pegs: (nat, nat)| #[trigger]
            bucket_size(rows.take(0), guess@, pegs, vc) == 0 by {
            rows.take(0).lemma_filter_len(earns(guess@, pegs, vc));
        }
        assert(bucket_size(rows.take(0), guess@, (0nat, 0nat), vc) == 0);
    }
    while i < n
        invariant
            rows == pool.deep_view(),
            vc == value_count,
            n == pool@.len(),
            i <= n,
            rows_have_size(rows, guess@.len()),
            guess@.len() < u32::MAX,
            side == guess@.len() + 1,
            counts@.len() == side,
            forall|b: int| 0 <= b < side ==> (#[trigger] counts@[b])@.len() == side,
            forall|b: int, w: int|
                0 <= b < side && 0 <= w < side ==> counts@[b]@[w] == bucket_size(
                    rows.take(i as int),
                    guess@,
                    (b as nat, w as nat),
                    vc,
                ),
            is_largest_bucket(rows.take(i as int), guess@, vc, largest as nat),
            largest <= i,
        decreases n - i,
    {
        assert(rows[i as int] =~= pool@[i as int]@);
        let pegs = score(guess, pool[i].as_slice(), value_count);
        let black = pegs.0 as usize;
        let white = pegs.1 as usize;
        let ghost found = (pegs.0 as nat, pegs.1 as nat);
        let ghost seen = rows.take(i as int);
        let ghost largest_before = largest as nat;
        proof {
            assert(rows.take(i + 1) =~= seen.push(rows[i as int]));
            assert forall|other: (nat, nat)| #[trigger]
                bucket_size(rows.take(i + 1), guess@, other, vc) == bucket_size(
                    seen,
                    guess@,
                    other,
                    vc,
                ) + if other == found {
                    1nat
                } else {
                    0nat
                } by {
                seen.lemma_filter_len_push(earns(guess@, other, vc), rows[i as int]);
            }
            seen.lemma_filter_len(earns(guess@, found, vc));
        }
        let count = counts[black][white] + 1;
        counts[black][white] = count;
        if count > largest {
            largest = count;
        }
        i += 1;
        proof {
            let old_witness = choose|other: (nat, nat)|
                #[trigger] bucket_size(seen, guess@, other, vc) == largest_before;
            if count > largest_before {
                assert(bucket_size(rows.take(i as int), guess@, found, vc) == largest);
            } else {
                assert(bucket_size(rows.take(i as int), guess@, old_witness, vc) == largest);
            }
        }
    }
    proof {
        assert(rows.take(n as int) =~= rows);
        lemma_largest_bucket_is(rows, guess@, vc, largest as nat);
    }
    n - largest
}

/// Rates every row of `pool` as a guess on `pool`, one after the other.
fn qualities_in_turn(pool: &Vec<Row>, value_count: u32) -> (scores: Vec<usize>)
    requires
        is_pool(pool.deep_view()),
    ensures
        scores@.len() == pool@.len(),
        forall|i: int|
            0 <= i < pool@.len() ==> scores@[i] == quality(
                pool.deep_view(),
                #[trigger] pool.deep_view()[i],
                value_count as nat,
            ),
{
    let ghost rows = pool.deep_view();
    let n = pool.len();
    let mut scores: Vec<usize> = Vec::new();
    let mut i: usize = 0;
    while i < n
        invariant
            rows == pool.deep_view(),
            n == pool@.len(),
            i <= n,
            is_pool(rows),
            scores@.len() == i,
            forall|j: int|
                0 <= j < i ==> scores@[j] == quality(rows, #[trigger] rows[j], value_count as nat),
        decreases n - i,
    {
        assert(rows[i as int] =~= pool@[i as int]@);
        assert(rows[0] =~= pool@[0]@);
        let eliminated = guess_quality(pool, pool[i].as_slice(), value_count);
        scores.push(eliminated);
        i += 1;
    }
    scores
}

/// Rates every row of `pool` as a guess on `pool`, on the threads of rayon's
/// global pool of workers.
///
/// Calls rayon's `par_iter` on the pool, `map` with `guess_quality` for each
/// row, and `collect` into a vector. Trusted of rayon: that `map` hands each
/// row to the function once, and that `collect` returns the results in the
/// order of the rows, one for each row. What each result is comes from the
/// contract of `guess_quality`. rayon starts its workers at the first call
/// and panics where the system gives it no thread; no argument of this
/// function decides that.
#[verifier::external_body]
fn qualities_in_parallel(pool: &Vec<Row>, value_count: u32) -> (scores: Vec<usize>)
    requires
        is_pool(pool.deep_view()),
    ensures
        scores@.len() == pool@.len(),
        forall|i: int|
            0 <= i < pool@.len() ==> scores@[i] == quality(
                pool.deep_view(),
                #[trigger] pool.deep_view()[i],
                value_count as nat,
            ),
{
    pool.par_iter().map(|row| guess_quality(pool, row, value_count)).collect()
}

/// The index of the first of the largest entries of `scores`.
fn first_largest(scores: &Vec<usize>) -> (index: usize)
    requires
        scores@.len() > 0,
    ensures
        index < scores@.len(),
        forall|j: int| 0 <= j < scores@.len() ==> scores@[j] <= scores@[index as int],
        forall|j: int| 0 <= j < index ==> scores@[j] < scores@[index as int],
{
    let mut index: usize = 0;
    let mut i: usize = 1;
    while i < scores.len()
        invariant
            index < i <= scores@.len(),
            forall|j: int| 0 <= j < i ==> scores@[j] <= scores@[index as int],
            forall|j: int| 0 <= j < index ==> scores@[j] < scores@[index as int],
        decreases scores@.len() - i,
    {
        if scores[i] > scores[index] {
            index = i;
        }
        i += 1;
    }
    index
}

/// Finds the index of the best guess of `pool`: the row of the highest
/// quality, and of several such rows the one that stands first.
///
/// Both strategies give the same index; they differ in where the work is
/// done. The pool must hold a row, and its rows must have one length below
/// `u32::MAX`.
pub fn best_index(pool: &Vec<Row>, value_count: u32, strategy: Strategy) -> (index: usize)
    requires
        pool@.len() > 0,
        is_pool(pool.deep_view()),
    ensures
        is_best_guess(pool.deep_view(), value_count as nat, index as int),
{
    let scores = match strategy {
        Strategy::Sequential => qualities_in_turn(pool, value_count),
        Strategy::Parallel => qualities_in_parallel(pool, value_count),
    };
    first_largest(&scores)
}

/// Selects the best guess of `pool`: the row that eliminates the most
/// candidates whatever the answer is, and of several such rows the one that
/// stands first in the pool.
///
/// The pool must hold a row, and its rows must have one length below
/// `u32::MAX`.
pub fn select_best(pool: &Vec<Row>, value_count: u32, strategy: Strategy) -> (best: &Row)
    requires
        pool@.len() > 0,
        is_pool(pool.deep_view()),
    ensures
        exists|index: int|
            is_best_guess(pool.deep_view(), value_count as nat, index) && best@
                == #[trigger] pool.deep_view()[index],
{
    let index = best_index(pool, value_count, strategy);
    assert(pool.deep_view()[index as int] =~= pool@[index as int]@);
    &pool[index]
}

} // verus!
