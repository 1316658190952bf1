//! Rows of symbols, and their numbering.
//!
//! A row is read as a number in base `value_count` whose least significant
//! digit stands first. `row_number` gives the number of a row and
//! `row_of_number` the row of a number; on the rows of one game the two are
//! inverse to each other.

use vstd::arithmetic::div_mod::{
    lemma_div_denominator,
    lemma_fundamental_div_mod,
    lemma_fundamental_div_mod_converse_div,
    lemma_fundamental_div_mod_converse_mod,
    lemma_mod_bound,
    lemma_multiply_divide_lt,
};
use vstd::arithmetic::power::{lemma_pow0, lemma_pow_positive, pow};
use vstd::prelude::*;

verus! {

/// A guess, a secret or a candidate: one symbol for each position.
pub type Row = Vec<u32>;

/// Every entry of `s` is a symbol of a game with `value_count` symbols.
pub open spec fn symbols_below(s: Seq<u32>, value_count: nat) -> bool {
    forall|i: int| 0 <= i < s.len() ==> s[i] < value_count
}

/// `s` is a row of a game with `row_size` positions and `value_count`
/// symbols: it has that many entries, and each of them is a symbol below
/// `value_count`.
pub open spec fn is_row(s: Seq<u32>, row_size: nat, value_count: nat) -> bool {
    s.len() == row_size && symbols_below(s, value_count)
}

/// Every row of `pool` has `row_size` positions.
pub open spec fn rows_have_size(pool: Seq<Seq<u32>>, row_size: nat) -> bool {
    forall|i: int| 0 <= i < pool.len() ==> (#[trigger] pool[i]).len() == row_size
}

/// `pool` can be searched for a guess: its rows have one length, and that
/// length is below `u32::MAX`.
pub open spec fn is_pool(pool: Seq<Seq<u32>>) -> bool {
    pool.len() > 0 ==> rows_have_size(pool, pool[0].len()) && pool[0].len() < u32::MAX
}

/// The number that `s` spells in base `value_count`, its first entry being
/// the least significant digit.
pub open spec fn row_number(s: Seq<u32>, value_count: nat) -> nat
    decreases s.len(),
{
    if s.len() == 0 {
        0
    } else {
        s[0] as nat + value_count * row_number(s.drop_first(), value_count)
    }
}

/// The digit of `number` at `position` in base `value_count`, position 0
/// being the least significant.
pub open spec fn digit(number: nat, position: nat, value_count: nat) -> nat {
    ((number as int / pow(value_count as int, position)) % (value_count as int)) as nat
}

/// The row of `row_size` positions that spells `number` in base
/// `value_count`, least significant digit first.
pub open spec fn row_of_number(number: nat, row_size: nat, value_count: nat) -> Seq<u32> {
    Seq::new(row_size, |position: int| digit(number, position as nat, value_count) as u32)
}

/// A power is the base times the power of one less.
pub proof fn lemma_pow_succ(base: int, exponent: nat)
    ensures
        pow(base, exponent + 1) == base * pow(base, exponent),
{
    reveal(pow);
}

/// A row of `n` symbols spells a number below `value_count` to the power `n`.
pub proof fn lemma_row_number_bound(s: Seq<u32>, value_count: nat)
    requires
        symbols_below(s, value_count),
    ensures
        row_number(s, value_count) < pow(value_count as int, s.len()),
    decreases s.len(),
{
    if s.len() == 0 {
        lemma_pow0(value_count as int);
    } else {
        let rest = s.drop_first();
        lemma_row_number_bound(rest, value_count);
        lemma_pow_succ(value_count as int, rest.len());
        let high = row_number(rest, value_count) as int;
        let limit = pow(value_count as int, rest.len());
        let vc = value_count as int;
        assert(vc * high <= vc * limit - vc) by (nonlinear_arith)
            requires
                0 <= vc,
                high <= limit - 1,
        ;
    }
}

/// The row of zeros spells zero.
pub proof fn lemma_row_number_of_zeros(s: Seq<u32>, value_count: nat)
    requires
        forall|i: int| 0 <= i < s.len() ==> s[i] == 0,
    ensures
        row_number(s, value_count) == 0,
    decreases s.len(),
{
    if s.len() > 0 {
        lemma_row_number_of_zeros(s.drop_first(), value_count);
        assert(value_count * 0 == 0) by (nonlinear_arith);
    }
}

/// Changing the symbol at `position` changes the number by the difference
/// of the two symbols, times the weight of the position.
pub proof fn lemma_row_number_update(s: Seq<u32>, value_count: nat, position: int, symbol: u32)
    requires
        0 <= position < s.len(),
    ensures
        row_number(s.update(position, symbol), value_count) == row_number(s, value_count) + (
        symbol - s[position]) * pow(value_count as int, position as nat),
    decreases position,
{
    let vc = value_count as int;
    let changed = s.update(position, symbol);
    let delta = symbol - s[position];
    if position == 0 {
        lemma_pow0(vc);
        assert(changed.drop_first() =~= s.drop_first());
    } else {
        let rest = s.drop_first();
        lemma_row_number_update(rest, value_count, position - 1, symbol);
        assert(changed.drop_first() =~= rest.update(position - 1, symbol));
        lemma_pow_succ(vc, (position - 1) as nat);
        let weight = pow(vc, (position - 1) as nat);
        let high = row_number(rest, value_count) as int;
        assert(vc * (high + delta * weight) == vc * high + delta * (vc * weight))
            by (nonlinear_arith);
    }
}

/// The digits of the number that a row spells are the symbols of the row.
pub proof fn lemma_digit_of_row_number(s: Seq<u32>, value_count: nat, position: nat)
    requires
        symbols_below(s, value_count),
        position < s.len(),
    ensures
        digit(row_number(s, value_count), position, value_count) == s[position as int],
    decreases position,
{
    let vc = value_count as int;
    let number = row_number(s, value_count) as int;
    let rest = s.drop_first();
    let high = row_number(rest, value_count) as int;
    assert(number == high * vc + s[0]) by (nonlinear_arith)
        requires
            number == s[0] + vc * high,
    ;
    lemma_fundamental_div_mod_converse_div(number, vc, high, s[0] as int);
    lemma_fundamental_div_mod_converse_mod(number, vc, high, s[0] as int);
    if position == 0 {
        lemma_pow0(vc);
    } else {
        lemma_digit_of_row_number(rest, value_count, (position - 1) as nat);
        let weight = pow(vc, (position - 1) as nat);
        lemma_pow_succ(vc, (position - 1) as nat);
        lemma_pow_positive(vc, (position - 1) as nat);
        lemma_div_denominator(number, vc, weight);
    }
}

/// A number below `value_count` to the power `row_size` is the number of
/// its row.
pub proof fn lemma_row_number_of_number(number: nat, row_size: nat, value_count: nat)
    requires
        0 < value_count <= u32::MAX,
        number < pow(value_count as int, row_size),
    ensures
        is_row(row_of_number(number, row_size, value_count), row_size, value_count),
        row_number(row_of_number(number, row_size, value_count), value_count) == number,
    decreases row_size,
{
    let vc = value_count as int;
    let s = row_of_number(number, row_size, value_count);
    assert forall|i: int| 0 <= i < s.len() implies s[i] < value_count by {
        lemma_mod_bound(number as int / pow(vc, i as nat), vc);
    }
    if row_size == 0 {
        lemma_pow0(vc);
    } else {
        let shorter = (row_size - 1) as nat;
        let high = (number as int / vc) as nat;
        lemma_pow_succ(vc, shorter);
        lemma_pow_positive(vc, shorter);
        lemma_multiply_divide_lt(number as int, vc, pow(vc, shorter));
        lemma_row_number_of_number(high, shorter, value_count);
        let rest = row_of_number(high, shorter, value_count);
        assert forall|j: int| 0 <= j < shorter implies s.drop_first()[j] == rest[j] by {
            let weight = pow(vc, j as nat);
            lemma_pow_succ(vc, j as nat);
            lemma_pow_positive(vc, j as nat);
            lemma_div_denominator(number as int, vc, weight);
            lemma_mod_bound(number as int / pow(vc, (j + 1) as nat), vc);
            lemma_mod_bound(high as int / weight, vc);
        }
        assert(s.drop_first() =~= rest);
        lemma_pow0(vc);
        lemma_mod_bound(number as int, vc);
        lemma_fundamental_div_mod(number as int, vc);
    }
}

} // verus!
