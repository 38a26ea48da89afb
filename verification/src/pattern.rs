//! A grid that obeys the rules: the empty grid has a solution, so that the
//! search from it cannot fail.
use vstd::prelude::*;
use crate::complete::{agrees, obeys, one_in, satisfiable};
use crate::facts::Facts;
use crate::groups::{block_group, cell_group, column_group, row_group, var_at};
use crate::laws::blank;
use crate::puzzle::{group_of, Family};
use crate::{VALUES, VARS};

verus! {

/// The digit, counted from 0, that the pattern has in the cell at `row` and
/// `column`: each row is the row above shifted by three, and each band of
/// three rows is the band above shifted by one.
pub open spec fn pattern_digit(row: int, column: int) -> int {
    (3 * (row % 3) + row / 3 + column) % 9
}

/// Whether the pattern has digit `value` in the cell at `row` and `column`.
pub open spec fn in_pattern(row: int, column: int, value: int) -> bool {
    &&& 0 <= row < 9
    &&& 0 <= column < 9
    &&& value == pattern_digit(row, column)
}

/// The pattern as a world: the variables of its placements.
pub open spec fn pattern() -> Set<int> {
    Set::new(|var: int| 0 <= var < VARS && in_pattern(var / 81, var / 9 % 9, var % 9))
}

/// The variable of a row, a column and a digit is in the pattern exactly if
/// the pattern has that digit there.
pub proof fn lemma_pattern_at(row: int, column: int, value: int)
    requires
        0 <= row < 9,
        0 <= column < 9,
        0 <= value < 9,
    ensures
        pattern().contains(var_at(row, column, value)) == (value == pattern_digit(row, column)),
{
    let var = var_at(row, column, value);
    assert(var / 9 == row * 9 + column);
    assert(var / 81 == row && var / 9 % 9 == column && var % 9 == value);
}

/// The pattern has exactly one digit in each cell.
pub proof fn lemma_pattern_cell(row: int, column: int)
    requires
        0 <= row < 9,
        0 <= column < 9,
    ensures
        one_in(pattern(), cell_group(row, column)),
{
    let group = cell_group(row, column);
    let i = pattern_digit(row, column);
    lemma_pattern_at(row, column, i);
    assert(pattern().contains(group[i]));
    assert forall|j: int| 0 <= j < 9 && j != i implies !#[trigger] pattern().contains(group[j]) by {
        lemma_pattern_at(row, column, j);
    }
}

/// Among nine numbers in a row, exactly one leaves a given remainder: for
/// `base` and `value` below nine, the one number `i` below nine with
/// `(base + i) % 9 == value`.
pub open spec fn offset(base: int, value: int) -> int {
    (value + 9 - base) % 9
}

/// The offset leaves the remainder, and no other number below nine does.
pub proof fn lemma_offset(base: int, value: int, j: int)
    requires
        0 <= base < 9,
        0 <= value < 9,
        0 <= j < 9,
    ensures
        0 <= offset(base, value) < 9,
        (base + offset(base, value)) % 9 == value,
        (base + j) % 9 == value ==> j == offset(base, value),
{
    if value >= base {
        assert(offset(base, value) == value - base);
    } else {
        assert(offset(base, value) == value + 9 - base);
    }
    if base + j < 9 {
        assert((base + j) % 9 == base + j);
    } else {
        assert((base + j) % 9 == base + j - 9);
    }
}

/// The place of a row within the order of the pattern's shifts. It is its own
/// inverse.
pub open spec fn shift(row: int) -> int {
    3 * (row % 3) + row / 3
}

/// The shift of a row is a row, and the shift of that is the row itself.
pub proof fn lemma_shift(row: int)
    requires
        0 <= row < 9,
    ensures
        0 <= shift(row) < 9,
        shift(shift(row)) == row,
{
    let low = row % 3;
    let high = row / 3;
    assert(row == 3 * high + low && 0 <= low < 3 && 0 <= high < 3);
    let turned = 3 * low + high;
    assert(turned % 3 == high && turned / 3 == low);
}

/// The pattern has each digit in exactly one place of each row.
pub proof fn lemma_pattern_row(row: int, value: int)
    requires
        0 <= row < 9,
        0 <= value < 9,
    ensures
        one_in(pattern(), row_group(row, value)),
{
    let group = row_group(row, value);
    lemma_shift(row);
    let base = shift(row);
    let i = offset(base, value);
    lemma_offset(base, value, 0);
    lemma_pattern_at(row, i, value);
    assert(pattern_digit(row, i) == (base + i) % 9);
    assert(pattern().contains(group[i]));
    assert forall|j: int| 0 <= j < 9 && j != i implies !#[trigger] pattern().contains(group[j]) by {
        lemma_pattern_at(row, j, value);
        lemma_offset(base, value, j);
        assert(pattern_digit(row, j) == (base + j) % 9);
    }
}

/// The digit that the pattern has in a column, by the shift of the row.
pub proof fn lemma_pattern_column_digit(row: int, column: int)
    requires
        0 <= row < 9,
        0 <= column < 9,
    ensures
        pattern_digit(row, column) == (column + shift(row)) % 9,
{
}

/// The pattern has each digit in exactly one place of each column.
pub proof fn lemma_pattern_column(column: int, value: int)
    requires
        0 <= column < 9,
        0 <= value < 9,
    ensures
        one_in(pattern(), column_group(column, value)),
{
    let group = column_group(column, value);
    let wanted = offset(column, value);
    lemma_offset(column, value, 0);
    lemma_shift(wanted);
    let i = shift(wanted);
    lemma_pattern_at(i, column, value);
    lemma_pattern_column_digit(i, column);
    assert(pattern().contains(group[i]));
    assert forall|j: int| 0 <= j < 9 && j != i implies !#[trigger] pattern().contains(group[j]) by {
        lemma_pattern_at(j, column, value);
        lemma_pattern_column_digit(j, column);
        lemma_shift(j);
        lemma_offset(column, value, shift(j));
    }
}

/// The digit that the pattern has at place `j` of a block.
pub proof fn lemma_pattern_block_digit(band: int, stack: int, j: int)
    requires
        0 <= band < 3,
        0 <= stack < 3,
        0 <= j < 9,
    ensures
        0 <= 3 * band + j / 3 < 9,
        0 <= 3 * stack + j % 3 < 9,
        pattern_digit(3 * band + j / 3, 3 * stack + j % 3) == (band + 3 * stack + j) % 9,
{
    let row = 3 * band + j / 3;
    assert(row % 3 == j / 3 && row / 3 == band);
    assert(3 * (j / 3) + j % 3 == j);
}

/// The pattern has each digit in exactly one place of each block.
pub proof fn lemma_pattern_block(band: int, stack: int, value: int)
    requires
        0 <= band < 3,
        0 <= stack < 3,
        0 <= value < 9,
    ensures
        one_in(pattern(), block_group(3 * band, 3 * stack, value)),
{
    let group = block_group(3 * band, 3 * stack, value);
    let base = band + 3 * stack;
    let i = offset(base, value);
    lemma_offset(base, value, 0);
    lemma_pattern_block_digit(band, stack, i);
    lemma_pattern_at(3 * band + i / 3, 3 * stack + i % 3, value);
    assert(pattern().contains(group[i]));
    assert forall|j: int| 0 <= j < 9 && j != i implies !#[trigger] pattern().contains(group[j]) by {
        lemma_pattern_block_digit(band, stack, j);
        lemma_pattern_at(3 * band + j / 3, 3 * stack + j % 3, value);
        lemma_offset(base, value, j);
    }
}

/// The pattern obeys the rules.
pub proof fn lemma_pattern_obeys()
    ensures
        obeys(pattern()),
{
    assert forall|family: Family, k: int| 0 <= k < 81 implies #[trigger] one_in(
        pattern(),
        group_of(family, k),
    ) by {
        reveal(group_of);
        match family {
            Family::Cell => lemma_pattern_cell(k / 9, k % 9),
            Family::Row => lemma_pattern_row(k / 9, k % 9),
            Family::Column => lemma_pattern_column(k / 9, k % 9),
            Family::Block => lemma_pattern_block(k / 27, k / 9 % 3, k % 9),
        }
    }
}

/// The empty grid has a solution: a store in which nothing is known is
/// satisfiable.
pub proof fn lemma_blank_satisfiable(facts: Facts)
    requires
        blank(facts),
    ensures
        satisfiable(facts),
{
    lemma_pattern_obeys();
    assert forall|lit: int| 0 <= lit < VALUES && #[trigger] facts.knows(lit) implies false by {
        let var = lit / 2;
        assert(facts.code(var) == 0);
    }
    assert(obeys(pattern()) && agrees(facts, pattern()));
}

} // verus!
