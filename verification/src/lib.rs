//! A solver for the code-breaking game Mastermind.
//!
//! The secret is a row of `row_size` symbols, each below `value_count`. The
//! solver keeps a pool of the rows that are still possible, proposes the guess
//! whose worst answer eliminates the most of them, and narrows the pool by the
//! black and white pegs that the guess earns, until one row is left.
//!
//! * [`row`]: what a row is, and how rows are numbered.
//! * [`space`]: the pool of all rows of a game.
//! * [`feedback`]: the black and white pegs of a guess against a secret.
//! * [`pruning`]: what an answer leaves of a pool.
//! * [`selector`]: the quality of a guess, and the best guess of a pool.
//! * [`solver`]: setting up a game, taking an answer, proposing a guess.
//! * [`session`]: the pool and the guess on the table, as one value.
//! * [`answer`]: reading an answer as it is typed.

pub mod answer;
pub mod feedback;
pub mod pruning;
pub mod row;
pub mod selector;
pub mod session;
pub mod solver;
pub mod space;
