//! The three operations of a solving session: set up the pool and the first
//! guess, narrow the pool by an answer, and propose the next guess.
//!
//! A session is plain data in the caller's hands: the pool and the guess that
//! was played. Each operation takes what it needs and returns what is new, so
//! an earlier pool stays valid for as long as the caller keeps it.

use crate::feedback::feedback;
use crate::pruning::{consistent_rows, lemma_secret_survives, prune};
use crate::row::{is_pool, rows_have_size, Row};
use crate::selector::{is_best_guess, select_best, Strategy};
use crate::space::{all_rows, checked_space_size, generate, space_size};
use vstd::arithmetic::div_mod::{lemma_fundamental_div_mod, lemma_mod_bound};
use vstd::arithmetic::power::{lemma_pow_positive, pow};
use vstd::prelude::*;

verus! {

/// The most symbols that the pool of a new game may hold: the number of its
/// rows times the row size. A game above it is refused as too large.
pub const MAX_POOL_CELLS: usize = 1_048_576;

/// Why a game cannot be set up.
#[derive(Clone, Copy, Debug, PartialEq, Eq)]
pub enum ConfigurationError {
    /// The row has no position.
    ZeroRowSize,
    /// There is no symbol to fill a row with.
    ZeroValueCount,
    /// The pool would hold more than `MAX_POOL_CELLS` symbols.
    SpaceTooLarge,
}

/// What an operation of the solver refuses.
#[derive(Clone, Copy, Debug, PartialEq, Eq)]
pub enum SolverError {
    /// The game cannot be set up.
    Configuration(ConfigurationError),
    /// The answer has more pegs than the row has positions.
    InvalidFeedback,
    /// No candidate of the pool is consistent with the answer.
    Inconsistent,
    /// The pool is empty, so there is nothing to guess.
    Exhausted,
}

/// The number of symbols that the pool of a new game holds.
pub open spec fn pool_cells(row_size: nat, value_count: nat) -> nat {
    row_size * space_size(row_size, value_count)
}

/// Why a game with `row_size` positions and `value_count` symbols cannot be
/// set up, if it cannot.
pub open spec fn configuration_error(row_size: nat, value_count: nat) -> Option<
    ConfigurationError,
> {
    if row_size == 0 {
        Some(ConfigurationError::ZeroRowSize)
    } else if value_count == 0 {
        Some(ConfigurationError::ZeroValueCount)
    } else if pool_cells(row_size, value_count) > MAX_POOL_CELLS {
        Some(ConfigurationError::SpaceTooLarge)
    } else {
        None
    }
}

/// What an answer of `black` and `white` pegs to `guess` makes of `pool`:
/// the consistent rows, or the reason why the answer is refused.
pub open spec fn feedback_outcome(
    pool: Seq<Seq<u32>>,
    guess: Seq<u32>,
    black: nat,
    white: nat,
    value_count: nat,
) -> Result<Seq<Seq<u32>>, SolverError> {
    let left = consistent_rows(pool, guess, (black, white), value_count);
    if black + white > guess.len() {
        Err(SolverError::InvalidFeedback)
    } else if left.len() == 0 {
        Err(SolverError::Inconsistent)
    } else {
        Ok(left)
    }
}

/// An honest answer is always accepted: the pegs that the guess earns
/// against a row of the pool are valid, and they leave a pool that still
/// holds that row.
pub proof fn lemma_honest_feedback_is_accepted(
    pool: Seq<Seq<u32>>,
    guess: Seq<u32>,
    secret: int,
    value_count: nat,
)
    requires
        0 <= secret < pool.len(),
    ensures
        feedback_outcome(
            pool,
            guess,
            feedback(guess, pool[secret], value_count).0,
            feedback(guess, pool[secret], value_count).1,
            value_count,
        ) matches Ok(left) && left.contains(pool[secret]),
{
    lemma_secret_survives(pool, guess, secret, value_count);
}

/// Sets up a game with `row_size` positions and `value_count` symbols: the
/// pool of all rows in counting order, and the first guess.
///
/// Fails with a `Configuration` error where a count is zero or the pool
/// would hold more than `MAX_POOL_CELLS` symbols; nothing is built then.
pub fn initialize(row_size: usize, value_count: u32) -> (result: Result<(Vec<Row>, Row), SolverError>)
    ensures
        match result {
            Ok((pool, guess)) => {
                &&& configuration_error(row_size as nat, value_count as nat) is None
                &&& pool.deep_view() == all_rows(row_size as nat, value_count as nat)
                &&& rows_have_size(pool.deep_view(), row_size as nat)
                &&& 1 <= pool@.len() <= MAX_POOL_CELLS
                &&& row_size <= MAX_POOL_CELLS
                &&& exists|index: int|
                    is_best_guess(pool.deep_view(), value_count as nat, index) && guess@
                        == #[trigger] pool.deep_view()[index]
            },
            Err(error) => configuration_error(row_size as nat, value_count as nat) matches Some(
                reason,
            ) && error == SolverError::Configuration(reason),
        },
{
    if row_size == 0 {
        return Err(SolverError::Configuration(ConfigurationError::ZeroRowSize));
    }
    if value_count == 0 {
        return Err(SolverError::Configuration(ConfigurationError::ZeroValueCount));
    }
    let ghost size = pow(value_count as int, row_size as nat);
    proof {
        lemma_pow_positive(value_count as int, row_size as nat);
    }
    let most = MAX_POOL_CELLS / row_size;
    proof {
        lemma_fundamental_div_mod(MAX_POOL_CELLS as int, row_size as int);
        lemma_mod_bound(MAX_POOL_CELLS as int, row_size as int);
    }
    match checked_space_size(row_size, value_count, most) {
        None => {
            proof {
                assert(row_size * size > MAX_POOL_CELLS) by (nonlinear_arith)
                    requires
                        size >= most + 1,
                        MAX_POOL_CELLS < row_size * most + row_size,
                        row_size > 0,
                ;
            }
            Err(SolverError::Configuration(ConfigurationError::SpaceTooLarge))
        },
        Some(_) => {
            proof {
                assert(row_size * size <= MAX_POOL_CELLS && row_size <= row_size * size)
                    by (nonlinear_arith)
                    requires
                        1 <= size <= most,
                        row_size * most <= MAX_POOL_CELLS,
                        row_size > 0,
                ;
            }
            let pool = generate(row_size, value_count);
            proof {
                let rows = pool.deep_view();
                assert forall|i: int| 0 <= i < rows.len() implies (#[trigger] rows[i]).len()
                    == row_size by {
                    assert(rows[i] =~= pool@[i]@);
                }
                assert(rows[0] =~= pool@[0]@);
            }
            match next_guess(&pool, value_count) {
                Ok(guess) => Ok((pool, guess)),
                Err(error) => Err(error),
            }
        },
    }
}

/// Narrows `pool` by the answer to `played_guess`: returns the rows of the
/// pool against which the guess earns exactly `black` and `white` pegs, in
/// their order. The pool itself is left as it was.
///
/// Fails with `InvalidFeedback` where the answer has more pegs than the row
/// has positions, and with `Inconsistent` where no row of the pool is
/// consistent with it. The rows of the pool must have the length of the
/// guess.
pub fn apply_feedback(
    pool: &Vec<Row>,
    played_guess: &[u32],
    black: u32,
    white: u32,
    value_count: u32,
) -> (result: Result<Vec<Row>, SolverError>)
    requires
        rows_have_size(pool.deep_view(), played_guess@.len()),
        played_guess@.len() <= u32::MAX,
    ensures
        match result {
            Ok(next) => {
                &&& feedback_outcome(
                    pool.deep_view(),
                    played_guess@,
                    black as nat,
                    white as nat,
                    value_count as nat,
                ) == Ok::<Seq<Seq<u32>>, SolverError>(next.deep_view())
                &&& rows_have_size(next.deep_view(), played_guess@.len())
                &&& 1 <= next@.len() <= pool@.len()
            },
            Err(error) => feedback_outcome(
                pool.deep_view(),
                played_guess@,
                black as nat,
                white as nat,
                value_count as nat,
            ) == Err::<Seq<Seq<u32>>, SolverError>(error),
        },
{
    if black as u64 + white as u64 > played_guess.len() as u64 {
        return Err(SolverError::InvalidFeedback);
    }
    let mut next = copy_pool(pool);
    prune(&mut next, played_guess, (black, white), value_count);
    if next.len() == 0 {
        Err(SolverError::Inconsistent)
    } else {
        Ok(next)
    }
}

/// A copy of the pool, row by row.
fn copy_pool(pool: &Vec<Row>) -> (copy: Vec<Row>)
    ensures
        copy.deep_view() == pool.deep_view(),
{
    let mut copy: Vec<Row> = Vec::new();
    let mut i: usize = 0;
    while i < pool.len()
        invariant
            i <= pool@.len(),
            copy@.len() == i,
            forall|j: int| 0 <= j < i ==> copy@[j]@ == pool@[j]@,
        decreases pool@.len() - i,
    {
        copy.push(pool[i].clone());
        i += 1;
    }
    proof {
        assert forall|j: int| 0 <= j < pool@.len() implies copy.deep_view()[j]
            == pool.deep_view()[j] by {
            assert(copy@[j].deep_view() =~= copy@[j]@);
            assert(pool@[j].deep_view() =~= pool@[j]@);
        }
        assert(copy.deep_view() =~= pool.deep_view());
    }
    copy
}

/// Proposes the next guess: the best guess of `pool`, which is its only row
/// where it holds just one.
///
/// Fails with `Exhausted` where the pool is empty. The rows of the pool must
/// have one length below `u32::MAX`.
pub fn next_guess(pool: &Vec<Row>, value_count: u32) -> (result: Result<Row, SolverError>)
    requires
        is_pool(pool.deep_view()),
    ensures
        match result {
            Ok(guess) => exists|index: int|
                is_best_guess(pool.deep_view(), value_count as nat, index) && guess@
                    == #[trigger] pool.deep_view()[index],
            Err(error) => pool@.len() == 0 && error == SolverError::Exhausted,
        },
{
    if pool.len() == 0 {
        return Err(SolverError::Exhausted);
    }
    if pool.len() == 1 {
        let guess = pool[0].clone();
        proof {
            assert(pool.deep_view()[0] =~= pool@[0]@);
            assert(is_best_guess(pool.deep_view(), value_count as nat, 0));
        }
        return Ok(guess);
    }
    let guess = select_best(pool, value_count, Strategy::Parallel).clone();
    Ok(guess)
}

} // verus!
