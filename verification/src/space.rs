//! The candidate space: every row that a game allows.

use crate::row::{
    is_row,
    lemma_digit_of_row_number,
    lemma_pow_succ,
    lemma_row_number_bound,
    lemma_row_number_of_number,
    lemma_row_number_of_zeros,
    lemma_row_number_update,
    row_number,
    row_of_number,
    Row,
};
use vstd::arithmetic::div_mod::{lemma_fundamental_div_mod, lemma_mod_bound};
use vstd::arithmetic::power::{
    lemma0_pow,
    lemma1_pow,
    lemma_pow0,
    lemma_pow_increases,
    lemma_pow_positive,
    pow,
};
use vstd::prelude::*;

verus! {

/// The number of rows of a game: `value_count` to the power `row_size`.
pub open spec fn space_size(row_size: nat, value_count: nat) -> nat {
    pow(value_count as int, row_size) as nat
}

/// Every row of a game, in counting order: the row at index `k` spells `k`
/// in base `value_count`, so the first position changes fastest.
pub open spec fn all_rows(row_size: nat, value_count: nat) -> Seq<Seq<u32>> {
    Seq::new(
        space_size(row_size, value_count),
        |number: int| row_of_number(number as nat, row_size, value_count),
    )
}

/// Each entry of the candidate space is a row of the game.
pub proof fn lemma_all_rows_are_rows(row_size: nat, value_count: nat, index: int)
    requires
        0 < value_count <= u32::MAX,
        0 <= index < all_rows(row_size, value_count).len(),
    ensures
        is_row(all_rows(row_size, value_count)[index], row_size, value_count),
        row_number(all_rows(row_size, value_count)[index], value_count) == index,
{
    lemma_pow_positive(value_count as int, row_size);
    lemma_row_number_of_number(index as nat, row_size, value_count);
}

/// No row stands twice in the candidate space.
pub proof fn lemma_all_rows_distinct(row_size: nat, value_count: nat, first: int, second: int)
    requires
        0 < value_count <= u32::MAX,
        0 <= first < all_rows(row_size, value_count).len(),
        0 <= second < all_rows(row_size, value_count).len(),
        first != second,
    ensures
        all_rows(row_size, value_count)[first] != all_rows(row_size, value_count)[second],
{
    lemma_all_rows_are_rows(row_size, value_count, first);
    lemma_all_rows_are_rows(row_size, value_count, second);
}

/// Every row of the game stands in the candidate space, at the index that
/// is its number.
pub proof fn lemma_all_rows_complete(row_size: nat, value_count: nat, s: Seq<u32>)
    requires
        is_row(s, row_size, value_count),
    ensures
        row_number(s, value_count) < all_rows(row_size, value_count).len(),
        all_rows(row_size, value_count)[row_number(s, value_count) as int] == s,
{
    lemma_row_number_bound(s, value_count);
    let number = row_number(s, value_count);
    let found = row_of_number(number, row_size, value_count);
    assert forall|j: int| 0 <= j < row_size implies found[j] == s[j] by {
        lemma_digit_of_row_number(s, value_count, j as nat);
    }
    assert(found =~= s);
}

/// A row of `row_size` zeros.
fn zero_row(row_size: usize) -> (row: Row)
    ensures
        row@.len() == row_size,
        forall|i: int| 0 <= i < row_size ==> row@[i] == 0,
{
    let mut row: Row = Vec::new();
    let mut i: usize = 0;
    while i < row_size
        invariant
            i <= row_size,
            row@.len() == i,
            forall|j: int| 0 <= j < i ==> row@[j] == 0,
        decreases row_size - i,
    {
        row.push(0);
        i += 1;
    }
    row
}

/// Builds the candidate space of a game with `row_size` positions and
/// `value_count` symbols: every row, once, in counting order with the first
/// position changing fastest.
///
/// The space holds `value_count` to the power `row_size` rows, so that number
/// has to fit in `usize`; no other ceiling is set here.
pub fn generate(row_size: usize, value_count: u32) -> (pool: Vec<Row>)
    requires
        row_size >= 1,
        value_count >= 1,
        space_size(row_size as nat, value_count as nat) <= usize::MAX,
    ensures
        pool.deep_view() == all_rows(row_size as nat, value_count as nat),
        pool@.len() == space_size(row_size as nat, value_count as nat),
        forall|k: int|
            0 <= k < pool@.len() ==> is_row(
                (#[trigger] pool@[k])@,
                row_size as nat,
                value_count as nat,
            ),
        forall|k: int, l: int|
            0 <= k < pool@.len() && 0 <= l < pool@.len() && k != l ==> (#[trigger] pool@[k])@ != (
            #[trigger] pool@[l])@,
{
    let ghost vc = value_count as nat;
    let ghost size = pow(value_count as int, row_size as nat);
    let mut pool: Vec<Row> = Vec::new();
    let mut current: Row = zero_row(row_size);
    proof {
        lemma_row_number_of_zeros(current@, vc);
        lemma_pow0(value_count as int);
        lemma_row_number_bound(current@, vc);
    }
    pool.push(current.clone());
    let mut i: usize = 0;
    while i < row_size
        invariant
            value_count >= 1,
            vc == value_count,
            size == pow(value_count as int, row_size as nat),
            i <= row_size,
            is_row(current@, row_size as nat, vc),
            forall|j: int| 0 <= j < i ==> current@[j] == 0,
            1 <= pool@.len() <= size,
            row_number(current@, vc) + pow(value_count as int, i as nat) == pool@.len(),
            forall|k: int|
                0 <= k < pool@.len() ==> is_row((#[trigger] pool@[k])@, row_size as nat, vc)
                    && row_number(pool@[k]@, vc) == k,
        decreases size - pool@.len(), row_size - i,
    {
        let next = current[i] + 1;
        proof {
            lemma_row_number_update(current@, vc, i as int, if next < value_count {
                next
            } else {
                0
            });
            lemma_pow_succ(value_count as int, i as nat);
            lemma_pow_positive(value_count as int, i as nat);
        }
        let ghost weight = pow(value_count as int, i as nat);
        if next < value_count {
            current[i] = next;
            assert((next - (next - 1)) * weight == weight) by (nonlinear_arith);
            proof {
                lemma_row_number_bound(current@, vc);
                lemma_pow0(value_count as int);
            }
            i = 0;
            pool.push(current.clone());
        } else {
            current[i] = 0;
            assert((0 - (value_count - 1)) * weight + value_count * weight == weight)
                by (nonlinear_arith);
            i += 1;
        }
    }
    proof {
        let rows = pool.deep_view();
        let expected = all_rows(row_size as nat, vc);
        assert(rows.len() == expected.len());
        assert forall|k: int| 0 <= k < rows.len() implies rows[k] == expected[k] by {
            let s = pool@[k]@;
            assert forall|j: int| 0 <= j < row_size implies s[j] == expected[k][j] by {
                lemma_digit_of_row_number(s, vc, j as nat);
            }
            assert(rows[k] =~= s);
            assert(s =~= expected[k]);
        }
        assert(rows =~= expected);
    }
    pool
}

/// Computes the number of rows of a game, unless it exceeds `limit`.
///
/// Returns `value_count` to the power `row_size` where that is at most
/// `limit`, and `None` where it is more. The work stops as soon as the limit
/// is passed.
pub fn checked_space_size(row_size: usize, value_count: u32, limit: usize) -> (size: Option<usize>)
    ensures
        match size {
            Some(n) => n == space_size(row_size as nat, value_count as nat) && n <= limit,
            None => space_size(row_size as nat, value_count as nat) > limit,
        },
{
    let ghost vc = value_count as int;
    proof {
        lemma_pow0(vc);
    }
    if row_size == 0 || value_count == 1 {
        proof {
            lemma1_pow(row_size as nat);
        }
        return if limit >= 1 {
            Some(1)
        } else {
            None
        };
    }
    if value_count == 0 {
        proof {
            lemma0_pow(row_size as nat);
        }
        return Some(0);
    }
    if limit == 0 {
        proof {
            lemma_pow_positive(vc, row_size as nat);
        }
        return None;
    }
    let base = value_count as usize;
    let mut size: usize = 1;
    let mut i: usize = 0;
    while i < row_size
        invariant
            vc == value_count,
            base == value_count,
            value_count >= 2,
            i <= row_size,
            size == pow(vc, i as nat),
            1 <= size <= limit,
        decreases row_size - i,
    {
        proof {
            lemma_pow_succ(vc, i as nat);
            lemma_fundamental_div_mod(limit as int, vc);
            lemma_mod_bound(limit as int, vc);
        }
        let quotient = limit / base;
        if size > quotient {
            proof {
                assert(vc * size > limit) by (nonlinear_arith)
                    requires
                        size >= quotient + 1,
                        limit < vc * quotient + vc,
                        vc > 0,
                ;
                lemma_pow_increases(value_count as nat, (i + 1) as nat, row_size as nat);
            }
            return None;
        }
        proof {
            assert(vc * size <= limit) by (nonlinear_arith)
                requires
                    size <= quotient,
                    vc * quotient <= limit,
                    vc > 0,
            ;
            assert(vc * size >= 1) by (nonlinear_arith)
                requires
                    size >= 1,
                    vc >= 1,
            ;
        }
        size = base * size;
        i += 1;
    }
    Some(size)
}

} // verus!
