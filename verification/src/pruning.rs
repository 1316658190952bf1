//! Pruning: what an answer leaves of the pool.
//!
//! A candidate stays consistent with an answer when the played guess, scored
//! against that candidate as if it were the secret, earns exactly the pegs
//! that were observed.

use crate::feedback::{feedback, lemma_pegs_bounded, score};
use crate::row::{rows_have_size, Row};
use vstd::prelude::*;

verus! {

/// The test that a candidate passes when `guess` earns `pegs` against it.
pub open spec fn earns(guess: Seq<u32>, pegs: (nat, nat), value_count: nat) -> spec_fn(
    Seq<u32>,
) -> bool {
    |candidate: Seq<u32>| feedback(guess, candidate, value_count) == pegs
}

/// The rows of `pool` against which `guess` earns `pegs`, in the order in
/// which they stand in `pool`.
pub open spec fn consistent_rows(
    pool: Seq<Seq<u32>>,
    guess: Seq<u32>,
    pegs: (nat, nat),
    value_count: nat,
) -> Seq<Seq<u32>> {
    pool.filter(earns(guess, pegs, value_count))
}

/// Pruning never adds a row, and it keeps the pool's size only when every
/// row is consistent with the answer.
pub proof fn lemma_prune_shrinks(
    pool: Seq<Seq<u32>>,
    guess: Seq<u32>,
    pegs: (nat, nat),
    value_count: nat,
)
    ensures
        consistent_rows(pool, guess, pegs, value_count).len() <= pool.len(),
        consistent_rows(pool, guess, pegs, value_count).len() == pool.len() <==> forall|i: int|
            0 <= i < pool.len() ==> feedback(guess, #[trigger] pool[i], value_count) == pegs,
    decreases pool.len(),
{
    let keep = earns(guess, pegs, value_count);
    pool.lemma_filter_len(keep);
    if pool.len() > 0 {
        let front = pool.drop_last();
        lemma_prune_shrinks(front, guess, pegs, value_count);
        front.lemma_filter_len(keep);
        front.lemma_filter_len_push(keep, pool.last());
        assert(front.push(pool.last()) =~= pool);
        assert(keep(pool.last()) == (feedback(guess, pool[pool.len() - 1], value_count) == pegs));
        if consistent_rows(pool, guess, pegs, value_count).len() == pool.len() {
            assert forall|i: int| 0 <= i < pool.len() implies feedback(
                guess,
                #[trigger] pool[i],
                value_count,
            ) == pegs by {
                if i < pool.len() - 1 {
                    assert(front[i] == pool[i]);
                }
            }
        }
        if forall|i: int|
            0 <= i < pool.len() ==> feedback(guess, #[trigger] pool[i], value_count) == pegs {
            assert forall|i: int| 0 <= i < front.len() implies feedback(
                guess,
                #[trigger] front[i],
                value_count,
            ) == pegs by {
                assert(front[i] == pool[i]);
            }
        }
    }
}

/// Pruning keeps exactly the consistent rows: what it leaves are rows of the
/// pool against which the guess earns the pegs, and every such row of the
/// pool is left.
pub proof fn lemma_prune_keeps_consistent(
    pool: Seq<Seq<u32>>,
    guess: Seq<u32>,
    pegs: (nat, nat),
    value_count: nat,
)
    ensures
        forall|candidate: Seq<u32>| #[trigger]
            consistent_rows(pool, guess, pegs, value_count).contains(candidate) <==> pool.contains(
                candidate,
            ) && feedback(guess, candidate, value_count) == pegs,
{
    let keep = earns(guess, pegs, value_count);
    let left = pool.filter(keep);
    assert forall|candidate: Seq<u32>| #[trigger]
        left.contains(candidate) <==> pool.contains(candidate) && feedback(
            guess,
            candidate,
            value_count,
        ) == pegs by {
        if left.contains(candidate) {
            pool.lemma_filter_contains_rev(keep, candidate);
        }
        if pool.contains(candidate) && keep(candidate) {
            let i = choose|i: int| 0 <= i < pool.len() && pool[i] == candidate;
            pool.lemma_filter_contains(keep, i);
        }
    }
}

/// Pruning leaves rows of the length that the rows of the pool have.
pub proof fn lemma_consistent_rows_have_size(
    pool: Seq<Seq<u32>>,
    guess: Seq<u32>,
    pegs: (nat, nat),
    value_count: nat,
)
    requires
        rows_have_size(pool, guess.len()),
    ensures
        rows_have_size(consistent_rows(pool, guess, pegs, value_count), guess.len()),
{
    let left = consistent_rows(pool, guess, pegs, value_count);
    lemma_prune_keeps_consistent(pool, guess, pegs, value_count);
    assert forall|i: int| 0 <= i < left.len() implies (#[trigger] left[i]).len()
        == guess.len() by {
        assert(left.contains(left[i]));
        let j = choose|j: int| 0 <= j < pool.len() && pool[j] == left[i];
        assert(pool[j].len() == guess.len());
    }
}

/// An honest answer never empties the pool: pruned by the pegs that the
/// guess earns against one of its rows, the pool still holds that row.
pub proof fn lemma_secret_survives(
    pool: Seq<Seq<u32>>,
    guess: Seq<u32>,
    secret: int,
    value_count: nat,
)
    requires
        0 <= secret < pool.len(),
    ensures
        consistent_rows(pool, guess, feedback(guess, pool[secret], value_count), value_count)
            .contains(pool[secret]),
        consistent_rows(pool, guess, feedback(guess, pool[secret], value_count), value_count).len()
            > 0,
        feedback(guess, pool[secret], value_count).0 + feedback(guess, pool[secret], value_count).1
            <= guess.len(),
{
    let pegs = feedback(guess, pool[secret], value_count);
    pool.lemma_filter_contains(earns(guess, pegs, value_count), secret);
    lemma_pegs_bounded(guess, pool[secret], value_count);
}

/// Takes the row at `index` out of the pool and leaves an empty row in its
/// place.
fn take_row(pool: &mut Vec<Row>, index: usize) -> (row: Row)
    requires
        index < old(pool)@.len(),
    ensures
        row@ == old(pool)@[index as int]@,
        final(pool)@.len() == old(pool)@.len(),
        forall|j: int|
            0 <= j < old(pool)@.len() && j != index ==> final(pool)@[j] == old(pool)@[j],
{
    let mut row: Row = Vec::new();
    core::mem::swap(&mut pool[index], &mut row);
    row
}

/// Puts `row` at `index` in the pool, in place of the row that stood there.
fn put_row(pool: &mut Vec<Row>, index: usize, row: Row)
    requires
        index < old(pool)@.len(),
    ensures
        final(pool)@.len() == old(pool)@.len(),
        final(pool)@[index as int] == row,
        forall|j: int|
            0 <= j < old(pool)@.len() && j != index ==> final(pool)@[j] == old(pool)@[j],
{
    pool[index] = row;
}

/// Prunes the pool in place by an answer: keeps the rows against which
/// `played_guess` earns exactly the pegs `observed` (black, then white), in
/// their order, and discards the rest.
///
/// The pool never grows. When nothing is left, no row is consistent with the
/// answer. The rows of the pool must have the length of the guess.
pub fn prune(pool: &mut Vec<Row>, played_guess: &[u32], observed: (u32, u32), value_count: u32)
    requires
        rows_have_size(old(pool).deep_view(), played_guess@.len()),
        played_guess@.len() <= u32::MAX,
    ensures
        final(pool).deep_view() == consistent_rows(
            old(pool).deep_view(),
            played_guess@,
            (observed.0 as nat, observed.1 as nat),
            value_count as nat,
        ),
        final(pool)@.len() <= old(pool)@.len(),
        rows_have_size(final(pool).deep_view(), played_guess@.len()),
{
    let ghost before = pool.deep_view();
    let ghost keep = earns(
        played_guess@,
        (observed.0 as nat, observed.1 as nat),
        value_count as nat,
    );
    let n = pool.len();
    let mut kept: usize = 0;
    let mut i: usize = 0;
    while i < n
        invariant
            pool@.len() == n,
            before.len() == n,
            rows_have_size(before, played_guess@.len()),
            played_guess@.len() <= u32::MAX,
            keep == earns(
                played_guess@,
                (observed.0 as nat, observed.1 as nat),
                value_count as nat,
            ),
            kept <= i <= n,
            before.take(i as int).filter(keep).len() == kept,
            forall|j: int| 0 <= j < kept ==> pool@[j]@ == before.take(i as int).filter(keep)[j],
            forall|j: int| i <= j < n ==> pool@[j]@ == before[j],
        decreases n - i,
    {
        proof {
            assert(before.take(i + 1) =~= before.take(i as int).push(before[i as int]));
            before.take(i as int).lemma_filter_push(before[i as int], keep);
        }
        let pegs = score(played_guess, pool[i].as_slice(), value_count);
        if pegs.0 == observed.0 && pegs.1 == observed.1 {
            let row = take_row(pool, i);
            put_row(pool, kept, row);
            kept += 1;
        }
        i += 1;
    }
    let ghost compacted = pool@;
    pool.truncate(kept);
    proof {
        assert(before.take(n as int) =~= before);
        let left = before.filter(keep);
        assert forall|j: int| 0 <= j < kept implies pool.deep_view()[j] == left[j] by {
            assert(pool@[j] == compacted[j]);
            assert(pool@[j].deep_view() =~= pool@[j]@);
        }
        assert(pool.deep_view() =~= left);
        before.lemma_filter_len(keep);
        lemma_consistent_rows_have_size(
            before,
            played_guess@,
            (observed.0 as nat, observed.1 as nat),
            value_count as nat,
        );
    }
}

} // verus!
