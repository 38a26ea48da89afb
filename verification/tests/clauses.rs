use sudoku_sat::groups::{index, is, not};
use sudoku_sat::puzzle::{Family, Fault};
use sudoku_sat::smallindex::SmallIndex;
use sudoku_sat::sudoku::Sudoku;

fn var(row: u16, column: u16, value: u16) -> SmallIndex<729> {
    index(SmallIndex::new(row), SmallIndex::new(column), SmallIndex::new(value))
}

fn place(sudoku: &mut Sudoku, row: u16, column: u16, value: u16) {
    sudoku.assign(var(row, column, value));
}

fn stored(sudoku: &Sudoku) -> Vec<Vec<u16>> {
    let count = sudoku.clauses_count();
    let mut clauses = Vec::new();
    for i in 0..count {
        let start = sudoku.clause_start(i);
        let end = if i + 1 < count { sudoku.clause_start(i + 1) } else { sudoku.literals_count() };
        clauses.push((start..end).map(|k| sudoku.literal(k).raw()).collect());
    }
    clauses
}

#[test]
fn a_new_engine_is_empty() {
    let sudoku = Sudoku::new();
    assert_eq!(sudoku.literals_count(), 0);
    assert_eq!(sudoku.clauses_count(), 0);
    assert!(!sudoku.new_units_pending());
    assert_eq!(sudoku.seed(), 0);
    assert_eq!(sudoku.units().known(), 0);
}

#[test]
fn try_insert_stores_a_clause_of_unknown_literals() {
    let mut sudoku = Sudoku::new();
    let clause = [not(var(0, 0, 0)), not(var(0, 0, 1)), is(var(0, 0, 2))];
    assert_eq!(sudoku.try_insert(&clause), Ok(()));
    assert_eq!(sudoku.clauses_count(), 1);
    assert_eq!(sudoku.literals_count(), 3);
    assert_eq!(stored(&sudoku), vec![vec![0, 2, 5]]);
    assert_eq!(sudoku.try_insert(&[is(var(8, 8, 8)), is(var(8, 8, 7))]), Ok(()));
    assert_eq!(sudoku.clause_start(1), 3);
    assert_eq!(stored(&sudoku), vec![vec![0, 2, 5], vec![1457, 1455]]);
    assert!(!sudoku.new_units_pending());
}

#[test]
fn try_insert_drops_a_satisfied_clause() {
    let mut sudoku = Sudoku::new();
    place(&mut sudoku, 0, 0, 0);
    let known = sudoku.units().known();
    assert_eq!(sudoku.try_insert(&[is(var(5, 5, 5)), is(var(0, 0, 0))]), Ok(()));
    assert_eq!(sudoku.clauses_count(), 0);
    assert_eq!(sudoku.literals_count(), 0);
    assert_eq!(sudoku.units().known(), known);
    // the digit is excluded from the rest of the row: the negative literal holds
    assert_eq!(sudoku.try_insert(&[not(var(0, 5, 0)), is(var(5, 5, 5))]), Ok(()));
    assert_eq!(sudoku.clauses_count(), 0);
}

#[test]
fn try_insert_drops_false_literals() {
    let mut sudoku = Sudoku::new();
    place(&mut sudoku, 0, 0, 0);
    let clause = [is(var(0, 1, 0)), is(var(4, 4, 4)), not(var(0, 0, 0)), is(var(4, 4, 5))];
    assert_eq!(sudoku.try_insert(&clause), Ok(()));
    assert_eq!(stored(&sudoku), vec![vec![is(var(4, 4, 4)).raw(), is(var(4, 4, 5)).raw()]]);
}

#[test]
fn try_insert_forces_a_unit_clause() {
    let mut sudoku = Sudoku::new();
    place(&mut sudoku, 0, 0, 0);
    // of the two, one is known false: the other is placed
    assert_eq!(sudoku.try_insert(&[is(var(0, 1, 0)), is(var(4, 4, 4))]), Ok(()));
    assert_eq!(sudoku.clauses_count(), 0);
    assert_eq!(sudoku.units().get(var(4, 4, 4)), 2);
    assert_eq!(sudoku.units().get(var(4, 4, 5)), 1);
    assert_eq!(sudoku.units().get(var(4, 0, 4)), 1);
    // a negative unit is recorded alone
    let known = sudoku.units().known();
    assert_eq!(sudoku.try_insert(&[not(var(8, 8, 8)), not(var(0, 0, 0))]), Ok(()));
    assert_eq!(sudoku.units().get(var(8, 8, 8)), 1);
    assert_eq!(sudoku.units().known(), known + 1);
    assert!(sudoku.new_units_pending());
}

#[test]
fn try_insert_reports_an_empty_clause() {
    let mut sudoku = Sudoku::new();
    place(&mut sudoku, 0, 0, 0);
    assert_eq!(
        sudoku.try_insert(&[is(var(0, 1, 0)), not(var(0, 0, 0))]),
        Err(Fault::EmptyClause)
    );
    assert_eq!(sudoku.try_insert(&[]), Err(Fault::EmptyClause));
    assert_eq!(sudoku.clauses_count(), 0);
}

#[test]
fn try_insert_reports_a_full_clause_pool() {
    let mut sudoku = Sudoku::new();
    let clause = [not(var(0, 0, 0)), not(var(0, 0, 1))];
    for _ in 0..11_988 {
        assert_eq!(sudoku.try_insert(&clause), Ok(()));
    }
    assert_eq!(sudoku.clauses_count(), 11_988);
    assert_eq!(sudoku.literals_count(), 23_976);
    assert_eq!(sudoku.try_insert(&clause), Err(Fault::CapacityExceeded));
    assert_eq!(sudoku.clauses_count(), 11_988);
    assert_eq!(sudoku.literals_count(), 23_976);
}

#[test]
fn try_insert_reports_a_full_literal_pool() {
    let mut sudoku = Sudoku::new();
    let clause: Vec<SmallIndex<1458>> = (0..9).map(|v| is(var(0, 0, v))).collect();
    for _ in 0..2916 {
        assert_eq!(sudoku.try_insert(&clause), Ok(()));
    }
    assert_eq!(sudoku.literals_count(), 26_244);
    assert_eq!(sudoku.try_insert(&clause[..2]), Err(Fault::CapacityExceeded));
    assert_eq!(sudoku.literals_count(), 26_244);
    assert_eq!(sudoku.clauses_count(), 2916);
}

#[test]
fn a_full_pool_refuses_only_what_is_to_be_stored() {
    // generation from the empty store fills both pools to the last place
    let mut sudoku = Sudoku::new();
    sudoku.generate_clauses().unwrap();
    assert_eq!(sudoku.literals_count(), 26_244);
    assert_eq!(sudoku.clauses_count(), 11_988);
    place(&mut sudoku, 0, 0, 0);
    let known = sudoku.units().known();
    // a satisfied clause is dropped, though an unknown literal comes first
    assert_eq!(sudoku.try_insert(&[is(var(0, 1, 1)), is(var(0, 0, 0))]), Ok(()));
    assert_eq!(sudoku.units().known(), known);
    assert_eq!(sudoku.literals_count(), 26_244);
    assert_eq!(sudoku.clauses_count(), 11_988);
    // a clause left empty is a contradiction
    assert_eq!(
        sudoku.try_insert(&[is(var(0, 1, 0)), not(var(0, 0, 0))]),
        Err(Fault::EmptyClause)
    );
    // two unknown literals would have to be stored
    assert_eq!(
        sudoku.try_insert(&[is(var(0, 1, 1)), is(var(0, 1, 2))]),
        Err(Fault::CapacityExceeded)
    );
    assert_eq!(sudoku.units().known(), known);
    // one unknown literal is forced: nothing is stored
    assert_eq!(sudoku.units().get(var(0, 1, 1)), 0);
    assert_eq!(sudoku.try_insert(&[is(var(0, 1, 1)), not(var(0, 0, 0))]), Ok(()));
    assert_eq!(sudoku.units().get(var(0, 1, 1)), 2);
    assert_eq!(sudoku.units().get(var(0, 1, 2)), 1);
    assert!(sudoku.units().known() > known);
    assert_eq!(sudoku.literals_count(), 26_244);
    assert_eq!(sudoku.clauses_count(), 11_988);
}

#[test]
fn a_full_clause_pool_still_takes_what_is_not_stored() {
    let mut sudoku = Sudoku::new();
    let clause = [not(var(8, 8, 0)), not(var(8, 8, 1))];
    for _ in 0..11_988 {
        assert_eq!(sudoku.try_insert(&clause), Ok(()));
    }
    assert_eq!(sudoku.try_insert(&clause), Err(Fault::CapacityExceeded));
    assert_eq!(sudoku.try_insert(&[not(var(0, 0, 0))]), Ok(()));
    assert_eq!(sudoku.units().get(var(0, 0, 0)), 1);
    assert_eq!(sudoku.try_insert(&[is(var(5, 5, 5)), not(var(0, 0, 0))]), Ok(()));
    assert_eq!(sudoku.units().get(var(5, 5, 5)), 0);
    assert_eq!(sudoku.clauses_count(), 11_988);
}

#[test]
fn define_submits_one_clause_for_a_group() {
    let mut sudoku = Sudoku::new();
    assert_eq!(sudoku.cell_definedness(SmallIndex::new(1), SmallIndex::new(2)), Ok(()));
    let expected: Vec<u16> = (0..9).map(|v| is(var(1, 2, v)).raw()).collect();
    assert_eq!(stored(&sudoku), vec![expected]);
    assert_eq!(sudoku.row_definedness(SmallIndex::new(1), SmallIndex::new(2)), Ok(()));
    let expected: Vec<u16> = (0..9).map(|c| is(var(1, c, 2)).raw()).collect();
    assert_eq!(stored(&sudoku)[1], expected);
    assert_eq!(sudoku.column_definedness(SmallIndex::new(1), SmallIndex::new(2)), Ok(()));
    let expected: Vec<u16> = (0..9).map(|r| is(var(r, 1, 2)).raw()).collect();
    assert_eq!(stored(&sudoku)[2], expected);
    assert_eq!(
        sudoku.block_definedness(SmallIndex::new(3), SmallIndex::new(6), SmallIndex::new(2)),
        Ok(())
    );
    let expected: Vec<u16> = (0..9).map(|o| is(var(3 + o / 3, 6 + o % 3, 2)).raw()).collect();
    assert_eq!(stored(&sudoku)[3], expected);
}

#[test]
fn separate_submits_one_clause_for_each_pair() {
    let mut sudoku = Sudoku::new();
    assert_eq!(sudoku.cell_uniqueness(SmallIndex::new(1), SmallIndex::new(2)), Ok(()));
    let clauses = stored(&sudoku);
    assert_eq!(clauses.len(), 36);
    assert_eq!(clauses[0], vec![not(var(1, 2, 0)).raw(), not(var(1, 2, 1)).raw()]);
    assert_eq!(clauses[1], vec![not(var(1, 2, 0)).raw(), not(var(1, 2, 2)).raw()]);
    assert_eq!(clauses[2], vec![not(var(1, 2, 1)).raw(), not(var(1, 2, 2)).raw()]);
    assert_eq!(clauses[35], vec![not(var(1, 2, 7)).raw(), not(var(1, 2, 8)).raw()]);
    let mut sudoku = Sudoku::new();
    assert_eq!(sudoku.row_uniqueness(SmallIndex::new(1), SmallIndex::new(2)), Ok(()));
    assert_eq!(stored(&sudoku)[2], vec![not(var(1, 1, 2)).raw(), not(var(1, 2, 2)).raw()]);
    let mut sudoku = Sudoku::new();
    assert_eq!(sudoku.column_uniqueness(SmallIndex::new(1), SmallIndex::new(2)), Ok(()));
    assert_eq!(stored(&sudoku)[2], vec![not(var(1, 1, 2)).raw(), not(var(2, 1, 2)).raw()]);
    let mut sudoku = Sudoku::new();
    assert_eq!(
        sudoku.block_uniqueness(SmallIndex::new(3), SmallIndex::new(6), SmallIndex::new(2)),
        Ok(())
    );
    let clauses = stored(&sudoku);
    assert_eq!(clauses.len(), 36);
    // the pair of the offsets 3 and 4: the first two cells of the second row
    assert_eq!(clauses[9], vec![not(var(4, 6, 2)).raw(), not(var(4, 7, 2)).raw()]);
}

#[test]
fn a_family_has_81_groups() {
    let mut sudoku = Sudoku::new();
    assert_eq!(sudoku.define_family(Family::Block), Ok(()));
    assert_eq!(sudoku.clauses_count(), 81);
    assert_eq!(sudoku.literals_count(), 729);
    let clauses = stored(&sudoku);
    let expected: Vec<u16> = (0..9).map(|o| is(var(o / 3, 3 + o % 3, 4)).raw()).collect();
    assert_eq!(clauses[9 + 4], expected);
    let expected: Vec<u16> = (0..9).map(|o| is(var(6 + o / 3, 6 + o % 3, 8)).raw()).collect();
    assert_eq!(clauses[80], expected);
    let mut sudoku = Sudoku::new();
    assert_eq!(sudoku.separate_family(Family::Row), Ok(()));
    assert_eq!(sudoku.clauses_count(), 2916);
    assert_eq!(sudoku.literals_count(), 5832);
}

#[test]
fn generation_from_the_empty_store_fills_the_pools_exactly() {
    let mut sudoku = Sudoku::new();
    assert_eq!(sudoku.generate_clauses(), Ok(()));
    assert_eq!(sudoku.clauses_count(), 11_988);
    assert_eq!(sudoku.literals_count(), 26_244);
    assert_eq!(sudoku.units().known(), 0);
    assert!(!sudoku.new_units_pending());
    let clauses = stored(&sudoku);
    assert_eq!(clauses[0], (0..9).map(|v| is(var(0, 0, v)).raw()).collect::<Vec<u16>>());
    assert_eq!(clauses[81], (0..9).map(|c| is(var(0, c, 0)).raw()).collect::<Vec<u16>>());
    assert_eq!(clauses[162], (0..9).map(|r| is(var(r, 0, 0)).raw()).collect::<Vec<u16>>());
    assert_eq!(clauses[324], vec![not(var(0, 0, 0)).raw(), not(var(0, 0, 1)).raw()]);
    assert!(clauses[..324].iter().all(|c| c.len() == 9));
    assert!(clauses[324..].iter().all(|c| c.len() == 2));
}

#[test]
fn generation_with_a_clue_stays_within_capacity() {
    let mut sudoku = Sudoku::new();
    place(&mut sudoku, 4, 4, 4);
    assert_eq!(sudoku.generate_clauses(), Ok(()));
    assert!(sudoku.clauses_count() < 11_988);
    assert!(sudoku.literals_count() < 26_244);
    assert!(sudoku.clauses_count() > 0);
}

#[test]
fn one_placement_leaves_these_clauses() {
    for (row, column, value) in [(0, 0, 0), (4, 4, 4), (8, 2, 6)] {
        let mut sudoku = Sudoku::new();
        place(&mut sudoku, row, column, value);
        assert_eq!(sudoku.units().known(), 29);
        assert_eq!(sudoku.generate_clauses(), Ok(()));
        assert_eq!(sudoku.clauses_count(), 11_224);
        assert_eq!(sudoku.literals_count(), 24_608);
        assert_eq!(sudoku.units().known(), 29);
        assert!(!sudoku.new_units_pending());
        // nothing became known: a reduction leaves every clause as it is
        let before = stored(&sudoku);
        assert_eq!(sudoku.reduce_clauses(), Ok(()));
        assert_eq!(stored(&sudoku), before);
    }
}

#[test]
fn reduction_leaves_parts_of_the_clauses_in_their_order() {
    let mut sudoku = Sudoku::new();
    sudoku.generate_clauses().unwrap();
    let before = stored(&sudoku);
    place(&mut sudoku, 2, 3, 4);
    assert_eq!(sudoku.reduce_clauses(), Ok(()));
    let after = stored(&sudoku);
    assert!(after.len() < before.len());
    // each clause left is an ordered part of a clause stored before, and the
    // clauses keep their order
    let mut from = 0;
    for clause in &after {
        let mut found = false;
        while from < before.len() && !found {
            let mut rest = before[from].iter();
            found = clause.iter().all(|l| rest.any(|m| m == l));
            from += 1;
        }
        assert!(found);
    }
}

#[test]
fn generation_reports_a_contradiction() {
    // eight digits are in the first column, the ninth is in the first row:
    // the cell where the two meet has no digit left
    let mut sudoku = Sudoku::new();
    for v in 0..8 {
        place(&mut sudoku, 1 + v, 0, v);
    }
    place(&mut sudoku, 0, 1, 8);
    for v in 0..9 {
        assert_eq!(sudoku.units().get(var(0, 0, v)), 1);
    }
    assert_eq!(sudoku.generate_clauses(), Err(Fault::EmptyClause));
    assert_eq!(sudoku.clauses_count(), 0);
}

#[test]
fn reduction_with_nothing_new_leaves_the_clauses() {
    let mut sudoku = Sudoku::new();
    sudoku.generate_clauses().unwrap();
    let before = stored(&sudoku);
    assert_eq!(sudoku.reduce_clauses(), Ok(()));
    assert_eq!(stored(&sudoku), before);
    assert!(!sudoku.new_units_pending());
}

#[test]
fn reduction_of_an_empty_store_clears_the_flag() {
    let mut sudoku = Sudoku::new();
    place(&mut sudoku, 0, 0, 0);
    assert!(sudoku.new_units_pending());
    assert_eq!(sudoku.reduce_clauses(), Ok(()));
    assert!(!sudoku.new_units_pending());
    assert_eq!(sudoku.clauses_count(), 0);
}

#[test]
fn reduction_shrinks_clauses_by_what_became_known() {
    let mut sudoku = Sudoku::new();
    sudoku.try_insert(&[is(var(0, 0, 0)), is(var(0, 0, 1)), is(var(0, 0, 2))]).unwrap();
    sudoku.try_insert(&[is(var(5, 5, 5)), is(var(5, 5, 6))]).unwrap();
    sudoku.try_insert(&[not(var(0, 0, 0)), not(var(7, 7, 7))]).unwrap();
    place(&mut sudoku, 1, 0, 0);
    assert!(sudoku.new_units_pending());
    assert_eq!(sudoku.reduce_clauses(), Ok(()));
    assert_eq!(
        stored(&sudoku),
        vec![
            vec![is(var(0, 0, 1)).raw(), is(var(0, 0, 2)).raw()],
            vec![is(var(5, 5, 5)).raw(), is(var(5, 5, 6)).raw()],
        ]
    );
    assert!(!sudoku.new_units_pending());
}

#[test]
fn reduction_reports_an_oversized_clause() {
    let mut sudoku = Sudoku::new();
    let clause: Vec<SmallIndex<1458>> = (0..10).map(|v| is(SmallIndex::new(v))).collect();
    assert_eq!(sudoku.try_insert(&clause), Ok(()));
    assert_eq!(sudoku.literals_count(), 10);
    assert_eq!(sudoku.reduce_clauses(), Err(Fault::OversizedClause));
}

#[test]
fn reduction_reports_a_contradiction() {
    let mut sudoku = Sudoku::new();
    sudoku.try_insert(&[is(var(0, 1, 0)), is(var(0, 2, 0))]).unwrap();
    place(&mut sudoku, 0, 0, 0);
    assert_eq!(sudoku.reduce_clauses(), Err(Fault::EmptyClause));
}

#[test]
fn propagation_ends_at_a_fixpoint_without_false_literals() {
    let mut sudoku = Sudoku::new();
    place(&mut sudoku, 0, 0, 0);
    place(&mut sudoku, 1, 3, 1);
    place(&mut sudoku, 2, 6, 2);
    assert_eq!(sudoku.generate_clauses(), Ok(()));
    while sudoku.new_units_pending() && sudoku.clauses_count() != 0 {
        assert_eq!(sudoku.reduce_clauses(), Ok(()));
    }
    assert!(sudoku.clauses_count() > 0);
    for clause in stored(&sudoku) {
        assert!(clause.len() >= 2);
        for literal in clause {
            assert_eq!(sudoku.units().get(SmallIndex::new(literal / 2)), 0);
        }
    }
}

#[test]
fn propagate_reduces_until_nothing_is_pending() {
    let mut sudoku = Sudoku::new();
    place(&mut sudoku, 0, 0, 0);
    assert_eq!(sudoku.generate_clauses(), Ok(()));
    assert_eq!(sudoku.propagate(), Ok(()));
    assert!(!sudoku.new_units_pending() || sudoku.clauses_count() == 0);
}

#[test]
fn clear_empties_the_clause_store() {
    let mut sudoku = Sudoku::new();
    place(&mut sudoku, 0, 0, 0);
    sudoku.try_insert(&[is(var(5, 5, 5)), is(var(5, 5, 6))]).unwrap();
    sudoku.clear();
    assert_eq!(sudoku.clauses_count(), 0);
    assert_eq!(sudoku.literals_count(), 0);
    assert!(!sudoku.new_units_pending());
    assert_eq!(sudoku.units().get(var(0, 0, 0)), 2);
}
