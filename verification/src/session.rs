//! A solving session: the pool, and the guess that is on the table.
//!
//! A session is a value. An answer does not change it: it gives the session
//! of the next round, so the caller can keep the earlier one and take an
//! answer back.

use crate::row::{rows_have_size, Row};
use crate::selector::is_best_guess;
use crate::solver::{
    apply_feedback,
    configuration_error,
    feedback_outcome,
    initialize,
    next_guess,
    SolverError,
};
use crate::space::all_rows;
use vstd::prelude::*;

verus! {

/// The state of a game between two answers.
///
/// The pool holds at least one row, its rows have the length of the guess,
/// and the guess is the best guess of the pool.
#[derive(Debug)]
pub struct Session {
    pool: Vec<Row>,
    guess: Row,
    value_count: u32,
}

impl Session {
    #[verifier::type_invariant]
    spec fn well_formed(self) -> bool {
        &&& self.pool@.len() >= 1
        &&& rows_have_size(self.pool.deep_view(), self.guess@.len())
        &&& self.guess@.len() < u32::MAX
        &&& exists|index: int|
            is_best_guess(self.pool.deep_view(), self.value_count as nat, index) && self.guess@
                == #[trigger] self.pool.deep_view()[index]
    }

    /// The candidates that are left.
    pub closed spec fn candidates(self) -> Seq<Seq<u32>> {
        self.pool.deep_view()
    }

    /// The guess that is on the table.
    pub closed spec fn current_guess(self) -> Seq<u32> {
        self.guess@
    }

    /// The number of symbols of the game.
    pub closed spec fn symbols(self) -> nat {
        self.value_count as nat
    }

    /// The guess on the table is the best guess of the candidates, which are
    /// at least one.
    pub open spec fn guess_is_best(self) -> bool {
        &&& self.candidates().len() >= 1
        &&& exists|index: int|
            is_best_guess(self.candidates(), self.symbols(), index) && self.current_guess()
                == #[trigger] self.candidates()[index]
    }

    /// Starts a game with `row_size` positions and `value_count` symbols:
    /// every row is a candidate, and the first guess is on the table.
    ///
    /// Fails with a `Configuration` error where a count is zero or the game
    /// is too large.
    pub fn start(row_size: usize, value_count: u32) -> (result: Result<Session, SolverError>)
        ensures
            match result {
                Ok(session) => {
                    &&& configuration_error(row_size as nat, value_count as nat) is None
                    &&& session.candidates() == all_rows(row_size as nat, value_count as nat)
                    &&& session.symbols() == value_count
                    &&& session.guess_is_best()
                },
                Err(error) => configuration_error(
                    row_size as nat,
                    value_count as nat,
                ) matches Some(reason) && error == SolverError::Configuration(reason),
            },
    {
        match initialize(row_size, value_count) {
            Ok((pool, guess)) => {
                let ghost index = choose|index: int|
                    is_best_guess(pool.deep_view(), value_count as nat, index) && guess@
                        == #[trigger] pool.deep_view()[index];
                assert(pool.deep_view()[index].len() == row_size);
                let session = Session { pool, guess, value_count };
                assert(session.current_guess() == session.candidates()[index]);
                Ok(session)
            },
            Err(error) => Err(error),
        }
    }

    /// Takes the answer to the guess on the table, `black` and `white`
    /// pegs, and gives the session of the next round: the candidates that
    /// are consistent with the answer, and the best guess among them.
    ///
    /// Fails with `InvalidFeedback` where the answer has more pegs than the
    /// row has positions, and with `Inconsistent` where no candidate is
    /// consistent with it. This session stays as it was either way.
    pub fn answer(&self, black: u32, white: u32) -> (result: Result<Session, SolverError>)
        ensures
            match result {
                Ok(next) => {
                    &&& feedback_outcome(
                        self.candidates(),
                        self.current_guess(),
                        black as nat,
                        white as nat,
                        self.symbols(),
                    ) == Ok::<Seq<Seq<u32>>, SolverError>(next.candidates())
                    &&& next.symbols() == self.symbols()
                    &&& next.guess_is_best()
                },
                Err(error) => feedback_outcome(
                    self.candidates(),
                    self.current_guess(),
                    black as nat,
                    white as nat,
                    self.symbols(),
                ) == Err::<Seq<Seq<u32>>, SolverError>(error),
            },
    {
        proof {
            use_type_invariant(self);
        }
        match apply_feedback(&self.pool, self.guess.as_slice(), black, white, self.value_count) {
            Ok(pool) => {
                match next_guess(&pool, self.value_count) {
                    Ok(guess) => {
                        let ghost index = choose|index: int|
                            is_best_guess(pool.deep_view(), self.value_count as nat, index)
                                && guess@ == #[trigger] pool.deep_view()[index];
                        assert(pool.deep_view()[index].len() == self.guess@.len());
                        let next = Session { pool, guess, value_count: self.value_count };
                        assert(next.current_guess() == next.candidates()[index]);
                        Ok(next)
                    },
                    Err(error) => Err(error),
                }
            },
            Err(error) => Err(error),
        }
    }

    /// Whether the game is solved: one candidate is left, and it is the
    /// guess on the table.
    pub fn is_solved(&self) -> (solved: bool)
        ensures
            solved == (self.candidates().len() == 1),
            solved ==> self.candidates()[0] == self.current_guess(),
    {
        proof {
            use_type_invariant(self);
        }
        self.pool.len() == 1
    }

    /// The guess that is on the table.
    pub fn guess(&self) -> (guess: &Row)
        ensures
            guess@ == self.current_guess(),
    {
        &self.guess
    }

    /// The candidates that are left.
    pub fn pool(&self) -> (pool: &Vec<Row>)
        ensures
            pool.deep_view() == self.candidates(),
    {
        &self.pool
    }

    /// The number of symbols of the game.
    pub fn value_count(&self) -> (value_count: u32)
        ensures
            value_count == self.symbols(),
    {
        self.value_count
    }
}

} // verus!
