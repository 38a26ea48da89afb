use sudoku_sat::groups::index;
use sudoku_sat::smallindex::SmallIndex;
use sudoku_sat::units::Units;

fn var(row: u16, column: u16, value: u16) -> SmallIndex<729> {
    index(SmallIndex::new(row), SmallIndex::new(column), SmallIndex::new(value))
}

fn known_vars(units: &Units) -> usize {
    (0..729u16).filter(|&v| units.get(SmallIndex::new(v)) != 0).count()
}

#[test]
fn a_new_store_knows_nothing() {
    let units = Units::new();
    assert_eq!(units.known(), 0);
    assert_eq!(units.depth(), 0);
    assert!(!units.pending());
    assert!(units.words().iter().all(|&w| w == 0));
    assert_eq!(known_vars(&units), 0);
}

#[test]
fn set_records_one_polarity() {
    let mut units = Units::new();
    units.set(SmallIndex::new(5), true);
    assert_eq!(units.get(SmallIndex::new(5)), 2);
    units.set(SmallIndex::new(6), false);
    assert_eq!(units.get(SmallIndex::new(6)), 1);
    assert_eq!(units.get(SmallIndex::new(7)), 0);
    assert_eq!(units.known(), 2);
    assert!(units.pending());
    assert_eq!(units.logged(0).raw(), 11);
    assert_eq!(units.logged(1).raw(), 12);
}

#[test]
fn set_packs_two_bits_per_variable() {
    let mut units = Units::new();
    units.set(SmallIndex::new(0), false);
    assert_eq!(units.words()[0], 1);
    units.set(SmallIndex::new(0), true);
    assert_eq!(units.words()[0], 3);
    assert_eq!(units.get(SmallIndex::new(0)), 3);
    units.set(SmallIndex::new(15), true);
    assert_eq!(units.words()[0], 0x8000_0003);
    units.set(SmallIndex::new(16), false);
    assert_eq!(units.words()[1], 1);
    units.set(SmallIndex::new(728), true);
    assert_eq!(units.words()[45], 1 << 17);
}

#[test]
fn set_of_a_known_literal_changes_nothing() {
    let mut units = Units::new();
    units.set(SmallIndex::new(40), true);
    units.clear_pending();
    let words = *units.words();
    units.set(SmallIndex::new(40), true);
    assert_eq!(units.known(), 1);
    assert!(!units.pending());
    assert_eq!(*units.words(), words);
}

#[test]
fn the_log_has_room_for_every_literal() {
    let mut units = Units::new();
    for v in 0..729u16 {
        units.set(SmallIndex::new(v), false);
        units.set(SmallIndex::new(v), true);
    }
    assert_eq!(units.known(), 1458);
    assert_eq!(units.logged(1457).raw(), 1457);
    units.snapshot();
    assert_eq!(units.mark(0), 1458);
    units.rollback();
    assert_eq!(units.known(), 1458);
}

#[test]
fn snapshot_pushes_the_length_of_the_log() {
    let mut units = Units::new();
    units.set(SmallIndex::new(1), true);
    units.set(SmallIndex::new(2), true);
    units.snapshot();
    assert_eq!(units.depth(), 1);
    assert_eq!(units.mark(0), 2);
    units.set(SmallIndex::new(3), true);
    units.snapshot();
    assert_eq!(units.depth(), 2);
    assert_eq!(units.mark(1), 3);
}

#[test]
fn the_checkpoint_stack_holds_one_checkpoint_per_cell() {
    let mut units = Units::new();
    for v in 0..81u16 {
        units.snapshot();
        units.set(SmallIndex::new(v), true);
    }
    assert_eq!(units.depth(), 81);
    assert_eq!(units.mark(80), 80);
    units.snapshot();
    assert_eq!(units.depth(), 81);
    assert_eq!(units.mark(80), 80);
}

#[test]
fn drop_snapshot_keeps_what_is_known() {
    let mut units = Units::new();
    units.snapshot();
    units.set(SmallIndex::new(9), true);
    units.drop_snapshot();
    assert_eq!(units.depth(), 0);
    assert_eq!(units.known(), 1);
    assert_eq!(units.get(SmallIndex::new(9)), 2);
    units.drop_snapshot();
    assert_eq!(units.depth(), 0);
}

#[test]
fn rollback_restores_the_words_bit_for_bit() {
    let mut units = Units::new();
    units.set(SmallIndex::new(3), true);
    units.set(SmallIndex::new(100), false);
    let before = *units.words();
    units.snapshot();
    units.set(SmallIndex::new(3), false);
    units.set(SmallIndex::new(3), true);
    units.set(SmallIndex::new(100), false);
    units.set(SmallIndex::new(700), true);
    units.assign([SmallIndex::new(4), SmallIndex::new(4), SmallIndex::new(4)]);
    assert_ne!(*units.words(), before);
    units.rollback();
    assert_eq!(*units.words(), before);
    assert_eq!(units.known(), 2);
    assert_eq!(units.depth(), 0);
    assert_eq!(units.get(SmallIndex::new(3)), 2);
    assert_eq!(units.get(SmallIndex::new(100)), 1);
    assert_eq!(units.get(SmallIndex::new(700)), 0);
}

#[test]
fn rollback_pops_one_checkpoint_at_a_time() {
    let mut units = Units::new();
    units.snapshot();
    units.set(SmallIndex::new(1), true);
    let middle = *units.words();
    units.snapshot();
    units.set(SmallIndex::new(2), true);
    units.rollback();
    assert_eq!(*units.words(), middle);
    assert_eq!(units.depth(), 1);
    units.rollback();
    assert!(units.words().iter().all(|&w| w == 0));
    assert_eq!(units.depth(), 0);
    assert_eq!(units.known(), 0);
}

#[test]
fn retract_withdraws_down_to_a_position() {
    let mut units = Units::new();
    units.set(SmallIndex::new(1), true);
    let before = *units.words();
    units.snapshot();
    units.set(SmallIndex::new(2), false);
    units.set(SmallIndex::new(3), true);
    units.retract(1);
    assert_eq!(*units.words(), before);
    assert_eq!(units.known(), 1);
    // the checkpoint stack stays as it is
    assert_eq!(units.depth(), 1);
    assert_eq!(units.mark(0), 1);
    units.retract(5);
    assert_eq!(units.known(), 1);
    units.retract(0);
    assert_eq!(units.known(), 0);
    assert!(units.words().iter().all(|&w| w == 0));
}

#[test]
fn rollback_without_checkpoint_changes_nothing() {
    let mut units = Units::new();
    units.set(SmallIndex::new(1), true);
    let before = *units.words();
    units.rollback();
    assert_eq!(*units.words(), before);
    assert_eq!(units.known(), 1);
}

#[test]
fn assign_excludes_what_the_rules_exclude() {
    let mut units = Units::new();
    units.assign([SmallIndex::new(4), SmallIndex::new(7), SmallIndex::new(2)]);
    assert_eq!(units.get(var(4, 7, 2)), 2);
    for i in 0..9u16 {
        if i != 4 {
            assert_eq!(units.get(var(i, 7, 2)), 1);
        }
        if i != 7 {
            assert_eq!(units.get(var(4, i, 2)), 1);
        }
        if i != 2 {
            assert_eq!(units.get(var(4, 7, i)), 1);
        }
    }
    for row in 3..6u16 {
        for column in 6..9u16 {
            if (row, column) != (4, 7) {
                assert_eq!(units.get(var(row, column, 2)), 1);
            }
        }
    }
    assert_eq!(units.get(var(0, 0, 2)), 0);
    assert_eq!(units.get(var(3, 6, 3)), 0);
    // the placement itself and 8 + 8 + 8 + 4 exclusions
    assert_eq!(units.known(), 29);
    assert_eq!(known_vars(&units), 29);
    assert_eq!(units.logged(0).raw(), 2 * var(4, 7, 2).raw() + 1);
    assert_eq!(units.logged(1).raw(), 2 * var(0, 7, 2).raw());
}

#[test]
fn assign_never_takes_knowledge_away() {
    let mut units = Units::new();
    units.assign([SmallIndex::new(0), SmallIndex::new(0), SmallIndex::new(0)]);
    let first = known_vars(&units);
    units.assign([SmallIndex::new(1), SmallIndex::new(3), SmallIndex::new(0)]);
    let second = known_vars(&units);
    assert!(second > first);
    units.assign([SmallIndex::new(1), SmallIndex::new(3), SmallIndex::new(0)]);
    assert_eq!(known_vars(&units), second);
}

#[test]
fn assign_does_not_test_for_contradictions() {
    let mut units = Units::new();
    units.assign([SmallIndex::new(0), SmallIndex::new(0), SmallIndex::new(0)]);
    units.assign([SmallIndex::new(0), SmallIndex::new(1), SmallIndex::new(0)]);
    // each of the two is placed, and excluded by the other
    assert_eq!(units.get(var(0, 0, 0)), 3);
    assert_eq!(units.get(var(0, 1, 0)), 3);
    assert_eq!(units.get(var(0, 2, 0)), 1);
}

#[test]
fn set_false_or_assign_places_or_records() {
    let mut units = Units::new();
    units.set_false_or_assign(var(2, 2, 2), false);
    assert_eq!(units.known(), 1);
    assert_eq!(units.get(var(2, 2, 2)), 1);
    units.set_false_or_assign(var(5, 5, 5), true);
    assert_eq!(units.get(var(5, 5, 5)), 2);
    assert_eq!(units.get(var(5, 0, 5)), 1);
    assert_eq!(units.known(), 30);
}
