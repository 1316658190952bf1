//! The pegs that a guess earns against a secret.
//!
//! A black peg stands for a position at which guess and secret hold the same
//! symbol. A white peg stands for a symbol that both rows hold at positions
//! without a black peg, counted once for each pair of such occurrences.

use vstd::prelude::*;

verus! {

/// The number of positions below `n` at which `a` and `b` hold the same symbol.
pub open spec fn matches_upto(a: Seq<u32>, b: Seq<u32>, n: nat) -> nat
    decreases n,
{
    if n == 0 {
        0
    } else {
        matches_upto(a, b, (n - 1) as nat) + if a[n - 1] == b[n - 1] {
            1nat
        } else {
            0nat
        }
    }
}

/// The number of positions below `n` at which `a` holds `symbol` and `b`
/// does not: the occurrences of `symbol` in `a` that earn no black peg.
pub open spec fn unmatched_upto(a: Seq<u32>, b: Seq<u32>, symbol: int, n: nat) -> nat
    decreases n,
{
    if n == 0 {
        0
    } else {
        unmatched_upto(a, b, symbol, (n - 1) as nat) + if a[n - 1] == symbol && b[n - 1]
            != symbol {
            1nat
        } else {
            0nat
        }
    }
}

/// The occurrences of `symbol` in `a` that earn no black peg against `b`.
pub open spec fn unmatched(a: Seq<u32>, b: Seq<u32>, symbol: int) -> nat {
    unmatched_upto(a, b, symbol, a.len())
}

/// The black pegs of `guess` against `secret`: the positions at which the two
/// hold the same symbol.
pub open spec fn black_pegs(guess: Seq<u32>, secret: Seq<u32>) -> nat {
    matches_upto(guess, secret, guess.len())
}

/// The white pegs that `symbol` earns: the smaller of its unmatched
/// occurrences in the guess and in the secret.
pub open spec fn white_pegs_of(guess: Seq<u32>, secret: Seq<u32>, symbol: int) -> nat {
    let in_guess = unmatched(guess, secret, symbol);
    let in_secret = unmatched(secret, guess, symbol);
    if in_guess <= in_secret {
        in_guess
    } else {
        in_secret
    }
}

/// The white pegs that the symbols below `bound` earn together.
pub open spec fn white_pegs_upto(guess: Seq<u32>, secret: Seq<u32>, bound: nat) -> nat
    decreases bound,
{
    if bound == 0 {
        0
    } else {
        white_pegs_upto(guess, secret, (bound - 1) as nat) + white_pegs_of(
            guess,
            secret,
            bound - 1,
        )
    }
}

/// The white pegs of `guess` against `secret` in a game with `value_count`
/// symbols.
pub open spec fn white_pegs(guess: Seq<u32>, secret: Seq<u32>, value_count: nat) -> nat {
    white_pegs_upto(guess, secret, value_count)
}

/// The feedback of `guess` against `secret`: black pegs, then white pegs.
pub open spec fn feedback(guess: Seq<u32>, secret: Seq<u32>, value_count: nat) -> (nat, nat) {
    (black_pegs(guess, secret), white_pegs(guess, secret, value_count))
}

/// The number of positions below `n` at which `a` holds a symbol below
/// `bound` and `b` holds another symbol.
spec fn unmatched_below_upto(a: Seq<u32>, b: Seq<u32>, bound: nat, n: nat) -> nat
    decreases n,
{
    if n == 0 {
        0
    } else {
        unmatched_below_upto(a, b, bound, (n - 1) as nat) + if a[n - 1] < bound && a[n - 1]
            != b[n - 1] {
            1nat
        } else {
            0nat
        }
    }
}

proof fn lemma_unmatched_below_step(a: Seq<u32>, b: Seq<u32>, bound: nat, n: nat)
    ensures
        unmatched_below_upto(a, b, bound + 1, n) == unmatched_below_upto(a, b, bound, n)
            + unmatched_upto(a, b, bound as int, n),
    decreases n,
{
    if n > 0 {
        lemma_unmatched_below_step(a, b, bound, (n - 1) as nat);
    }
}

proof fn lemma_white_upto_le_unmatched_below(guess: Seq<u32>, secret: Seq<u32>, bound: nat)
    ensures
        white_pegs_upto(guess, secret, bound) <= unmatched_below_upto(
            guess,
            secret,
            bound,
            guess.len(),
        ),
    decreases bound,
{
    if bound > 0 {
        lemma_white_upto_le_unmatched_below(guess, secret, (bound - 1) as nat);
        lemma_unmatched_below_step(guess, secret, (bound - 1) as nat, guess.len());
    }
}

proof fn lemma_matches_and_unmatched_below(a: Seq<u32>, b: Seq<u32>, bound: nat, n: nat)
    ensures
        matches_upto(a, b, n) + unmatched_below_upto(a, b, bound, n) <= n,
    decreases n,
{
    if n > 0 {
        lemma_matches_and_unmatched_below(a, b, bound, (n - 1) as nat);
    }
}

/// The symbols below `bound` earn no more white pegs than the black pegs
/// leave positions for.
pub proof fn lemma_pegs_upto_bounded(guess: Seq<u32>, secret: Seq<u32>, bound: nat)
    ensures
        black_pegs(guess, secret) + white_pegs_upto(guess, secret, bound) <= guess.len(),
{
    lemma_white_upto_le_unmatched_below(guess, secret, bound);
    lemma_matches_and_unmatched_below(guess, secret, bound, guess.len());
}

/// Black and white pegs together never exceed the number of positions.
pub proof fn lemma_pegs_bounded(guess: Seq<u32>, secret: Seq<u32>, value_count: nat)
    ensures
        feedback(guess, secret, value_count).0 + feedback(guess, secret, value_count).1
            <= guess.len(),
{
    lemma_pegs_upto_bounded(guess, secret, value_count);
}

proof fn lemma_self_matches(a: Seq<u32>, n: nat)
    ensures
        matches_upto(a, a, n) == n,
    decreases n,
{
    if n > 0 {
        lemma_self_matches(a, (n - 1) as nat);
    }
}

proof fn lemma_self_unmatched(a: Seq<u32>, symbol: int, n: nat)
    ensures
        unmatched_upto(a, a, symbol, n) == 0,
    decreases n,
{
    if n > 0 {
        lemma_self_unmatched(a, symbol, (n - 1) as nat);
    }
}

proof fn lemma_self_white(a: Seq<u32>, bound: nat)
    ensures
        white_pegs_upto(a, a, bound) == 0,
    decreases bound,
{
    if bound > 0 {
        lemma_self_white(a, (bound - 1) as nat);
        lemma_self_unmatched(a, bound - 1, a.len());
    }
}

/// A row scored against itself earns a black peg at every position and no
/// white peg.
pub proof fn lemma_self_feedback(a: Seq<u32>, value_count: nat)
    ensures
        feedback(a, a, value_count) == (a.len(), 0nat),
{
    lemma_self_matches(a, a.len());
    lemma_self_white(a, value_count);
}

proof fn lemma_matches_symmetric(a: Seq<u32>, b: Seq<u32>, n: nat)
    ensures
        matches_upto(a, b, n) == matches_upto(b, a, n),
    decreases n,
{
    if n > 0 {
        lemma_matches_symmetric(a, b, (n - 1) as nat);
    }
}

proof fn lemma_white_symmetric(a: Seq<u32>, b: Seq<u32>, bound: nat)
    ensures
        white_pegs_upto(a, b, bound) == white_pegs_upto(b, a, bound),
    decreases bound,
{
    if bound > 0 {
        lemma_white_symmetric(a, b, (bound - 1) as nat);
    }
}

/// Guess and secret may change places: two rows of one length earn the same
/// pegs either way.
pub proof fn lemma_feedback_symmetric(a: Seq<u32>, b: Seq<u32>, value_count: nat)
    requires
        a.len() == b.len(),
    ensures
        feedback(a, b, value_count) == feedback(b, a, value_count),
{
    lemma_matches_symmetric(a, b, a.len());
    lemma_white_symmetric(a, b, value_count);
}

proof fn lemma_one_symbol_bounded(a: Seq<u32>, b: Seq<u32>, symbol: int, n: nat)
    ensures
        matches_upto(a, b, n) + unmatched_upto(a, b, symbol, n) + unmatched_upto(b, a, symbol, n)
            <= n,
    decreases n,
{
    if n > 0 {
        lemma_one_symbol_bounded(a, b, symbol, (n - 1) as nat);
    }
}

proof fn lemma_near_miss_white_upto(guess: Seq<u32>, secret: Seq<u32>, bound: nat)
    requires
        guess.len() == secret.len(),
        black_pegs(guess, secret) + 1 == guess.len(),
    ensures
        white_pegs_upto(guess, secret, bound) == 0,
    decreases bound,
{
    if bound > 0 {
        lemma_near_miss_white_upto(guess, secret, (bound - 1) as nat);
        lemma_one_symbol_bounded(guess, secret, bound - 1, guess.len());
    }
}

/// A guess that misses the secret at exactly one position earns no white
/// peg: the one symbol it has left differs from the one the secret has left.
/// So no pair of rows has the feedback of all positions but one black and one
/// white.
pub proof fn lemma_near_miss_has_no_white(guess: Seq<u32>, secret: Seq<u32>, value_count: nat)
    requires
        guess.len() == secret.len(),
        feedback(guess, secret, value_count).0 + 1 == guess.len(),
    ensures
        feedback(guess, secret, value_count).1 == 0,
{
    lemma_near_miss_white_upto(guess, secret, value_count);
}

/// Scores `guess` against `secret` in a game with `value_count` symbols:
/// the black pegs, then the white pegs.
///
/// Each symbol is counted in one pass over the two rows, so the work is
/// proportional to `value_count` times the row size, and nothing is
/// allocated. The rows must have one length, short enough for a peg count to
/// fit in `u32`.
pub fn score(guess: &[u32], secret: &[u32], value_count: u32) -> (pegs: (u32, u32))
    requires
        guess@.len() == secret@.len(),
        guess@.len() <= u32::MAX,
    ensures
        pegs.0 == black_pegs(guess@, secret@),
        pegs.1 == white_pegs(guess@, secret@, value_count as nat),
        pegs.0 + pegs.1 <= guess@.len(),
{
    let n = guess.len();
    let mut black: u32 = 0;
    let mut i: usize = 0;
    while i < n
        invariant
            n == guess@.len(),
            n == secret@.len(),
            n <= u32::MAX,
            i <= n,
            black == matches_upto(guess@, secret@, i as nat),
            black <= i,
        decreases n - i,
    {
        if guess[i] == secret[i] {
            black += 1;
        }
        i += 1;
    }
    let mut white: u32 = 0;
    let mut symbol: u32 = 0;
    while symbol < value_count
        invariant
            n == guess@.len(),
            n == secret@.len(),
            n <= u32::MAX,
            symbol <= value_count,
            black == black_pegs(guess@, secret@),
            white == white_pegs_upto(guess@, secret@, symbol as nat),
            black + white <= n,
        decreases value_count - symbol,
    {
        let mut in_guess: u32 = 0;
        let mut in_secret: u32 = 0;
        let mut i: usize = 0;
        while i < n
            invariant
                n == guess@.len(),
                n == secret@.len(),
                n <= u32::MAX,
                i <= n,
                in_guess == unmatched_upto(guess@, secret@, symbol as int, i as nat),
                in_secret == unmatched_upto(secret@, guess@, symbol as int, i as nat),
                in_guess <= i,
                in_secret <= i,
            decreases n - i,
        {
            if guess[i] == symbol {
                if secret[i] != symbol {
                    in_guess += 1;
                }
            } else if secret[i] == symbol {
                in_secret += 1;
            }
            i += 1;
        }
        proof {
            lemma_pegs_upto_bounded(guess@, secret@, (symbol + 1) as nat);
        }
        white += if in_guess <= in_secret {
            in_guess
        } else {
            in_secret
        };
        symbol += 1;
    }
    (black, white)
}

} // verus!
