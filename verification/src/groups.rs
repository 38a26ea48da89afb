//! The variables of the grid and the groups of nine among which exactly one
//! holds: the digits of a cell, and the places of a digit in a row, a column
//! or a block.
use vstd::prelude::*;
use crate::smallindex::SmallIndex;
use crate::{N, VALUES, VARS};

verus! {

/// The variable that says that the cell at `row` and `column` holds `value`.
pub open spec fn var_at(row: int, column: int, value: int) -> int {
    (row * 9 + column) * 9 + value
}

/// The row of the cell of a variable.
#[verifier::opaque]
pub open spec fn row_of(var: int) -> int {
    var / 81
}

/// The column of the cell of a variable.
#[verifier::opaque]
pub open spec fn column_of(var: int) -> int {
    var / 9 % 9
}

/// The digit of a variable, counted from 0.
#[verifier::opaque]
pub open spec fn digit_of(var: int) -> int {
    var % 9
}

/// The literal of `var` with the given polarity.
pub open spec fn literal(var: int, positive: bool) -> int {
    2 * var + if positive {
        1int
    } else {
        0int
    }
}

/// The positive literal of `var`.
pub open spec fn positive(var: int) -> int {
    2 * var + 1
}

/// The negative literal of `var`.
pub open spec fn negative(var: int) -> int {
    2 * var
}

/// The literal that holds exactly where `lit` does not.
pub open spec fn complement(lit: int) -> int {
    if lit % 2 == 0 {
        lit + 1
    } else {
        lit - 1
    }
}

/// The nine candidate digits of one cell.
pub open spec fn cell_group(row: int, column: int) -> Seq<int> {
    Seq::new(9, |value: int| var_at(row, column, value))
}

/// The nine places of one digit in one row.
pub open spec fn row_group(row: int, value: int) -> Seq<int> {
    Seq::new(9, |column: int| var_at(row, column, value))
}

/// The nine places of one digit in one column.
pub open spec fn column_group(column: int, value: int) -> Seq<int> {
    Seq::new(9, |row: int| var_at(row, column, value))
}

/// The nine places of one digit in the block whose upper left cell is at
/// `block_row` and `block_column`, row by row.
pub open spec fn block_group(block_row: int, block_column: int, value: int) -> Seq<int> {
    Seq::new(9, |offset: int| var_at(block_row + offset / 3, block_column + offset % 3, value))
}

/// A group of nine variables.
pub open spec fn is_group(group: Seq<int>) -> bool {
    &&& group.len() == 9
    &&& forall|i: int| 0 <= i < 9 ==> 0 <= #[trigger] group[i] < VARS
}

/// The variable of a cell and a digit.
pub fn index(row: SmallIndex<N>, column: SmallIndex<N>, value: SmallIndex<N>) -> (r: SmallIndex<
    VARS,
>)
    ensures
        r.value() == var_at(row.value(), column.value(), value.value()),
{
    SmallIndex::new_unchecked((row.raw() * 9 + column.raw()) * 9 + value.raw())
}

/// The positive literal of a variable: the digit is in the cell.
pub fn is(index: SmallIndex<VARS>) -> (r: SmallIndex<VALUES>)
    ensures
        r.value() == positive(index.value()),
{
    index.from_var(1)
}

/// The negative literal of a variable: the digit is not in the cell.
pub fn not(index: SmallIndex<VARS>) -> (r: SmallIndex<VALUES>)
    ensures
        r.value() == negative(index.value()),
{
    index.from_var(0)
}

} // verus!
