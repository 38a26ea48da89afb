use sudoku_sat::generate::{block_vars, cell_vars, column_vars, row_vars};
use sudoku_sat::groups::{index, is, not};
use sudoku_sat::smallindex::SmallIndex;
use sudoku_sat::sudoku::Sudoku;

fn raw(group: [SmallIndex<729>; 9]) -> Vec<u16> {
    group.iter().map(|v| v.raw()).collect()
}

#[test]
fn a_cell_group_holds_the_digits_of_the_cell() {
    let group = cell_vars(SmallIndex::new(4), SmallIndex::new(7));
    assert_eq!(raw(group), (0..9).map(|v| (4 * 9 + 7) * 9 + v).collect::<Vec<u16>>());
}

#[test]
fn a_row_group_holds_the_places_of_a_digit_in_the_row() {
    let group = row_vars(SmallIndex::new(4), SmallIndex::new(2));
    assert_eq!(raw(group), (0..9).map(|c| (4 * 9 + c) * 9 + 2).collect::<Vec<u16>>());
}

#[test]
fn a_column_group_holds_the_places_of_a_digit_in_the_column() {
    let group = column_vars(SmallIndex::new(7), SmallIndex::new(2));
    assert_eq!(raw(group), (0..9).map(|r| (r * 9 + 7) * 9 + 2).collect::<Vec<u16>>());
}

#[test]
fn a_block_group_holds_the_places_of_a_digit_row_by_row() {
    let group = block_vars(SmallIndex::new(3), SmallIndex::new(6), SmallIndex::new(2));
    let expected: Vec<u16> = [(3, 6), (3, 7), (3, 8), (4, 6), (4, 7), (4, 8), (5, 6), (5, 7), (5, 8)]
        .iter()
        .map(|&(r, c)| (r * 9 + c) * 9 + 2)
        .collect();
    assert_eq!(raw(group), expected);
}

#[test]
fn define_and_separate_take_any_group() {
    let group = row_vars(SmallIndex::new(0), SmallIndex::new(0));
    let mut sudoku = Sudoku::new();
    assert_eq!(sudoku.define(&group), Ok(()));
    assert_eq!(sudoku.clauses_count(), 1);
    assert_eq!(sudoku.literals_count(), 9);
    assert_eq!(sudoku.literal(0), is(group[0]));
    assert_eq!(sudoku.literal(8), is(group[8]));
    assert_eq!(sudoku.separate(&group), Ok(()));
    assert_eq!(sudoku.clauses_count(), 37);
    assert_eq!(sudoku.literals_count(), 9 + 72);
    assert_eq!(sudoku.clause_start(1), 9);
    assert_eq!(sudoku.literal(9), not(group[0]));
    assert_eq!(sudoku.literal(10), not(group[1]));
    assert_eq!(sudoku.clause_start(36), 79);
    assert_eq!(sudoku.literal(79), not(group[7]));
    assert_eq!(sudoku.literal(80), not(group[8]));
}

#[test]
fn separate_forces_what_a_placement_excludes() {
    let mut sudoku = Sudoku::new();
    let placed = index(SmallIndex::new(0), SmallIndex::new(3), SmallIndex::new(0));
    // a clause of one literal forces it: the digit is placed
    assert_eq!(sudoku.try_insert(&[is(placed)]), Ok(()));
    assert_eq!(sudoku.units().known(), 29);
    let group = row_vars(SmallIndex::new(0), SmallIndex::new(0));
    assert_eq!(sudoku.separate(&group), Ok(()));
    // every other member is known to be false: each pair is satisfied, and so
    // is the clause that asks for one member to hold
    assert_eq!(sudoku.clauses_count(), 0);
    assert_eq!(sudoku.define(&group), Ok(()));
    assert_eq!(sudoku.clauses_count(), 0);
}
