use sudoku_sat::groups::{index, is, not};
use sudoku_sat::smallindex::SmallIndex;
use sudoku_sat::{CLAUSES, CRUMBS, GRID, LITERALS, MARKS, N, SQRT_N, UNITS, VALUES, VARS};

#[test]
fn new_clamps_to_the_largest_index() {
    assert_eq!(SmallIndex::<9>::new(3).raw(), 3);
    assert_eq!(SmallIndex::<9>::new(8).raw(), 8);
    assert_eq!(SmallIndex::<9>::new(9).raw(), 8);
    assert_eq!(SmallIndex::<9>::new(65535).raw(), 8);
    assert_eq!(SmallIndex::<1>::new(7).raw(), 0);
}

#[test]
fn new_unchecked_keeps_the_index() {
    assert_eq!(SmallIndex::<729>::new_unchecked(0).raw(), 0);
    assert_eq!(SmallIndex::<729>::new_unchecked(728).raw(), 728);
}

#[test]
fn indices_compare_by_value() {
    assert_eq!(SmallIndex::<9>::new(4), SmallIndex::<9>::new_unchecked(4));
    assert_ne!(SmallIndex::<9>::new(4), SmallIndex::<9>::new(5));
}

#[test]
fn array_holds_index_zero() {
    let a: [SmallIndex<9>; 5] = SmallIndex::array();
    assert_eq!(a.len(), 5);
    for x in a {
        assert_eq!(x.raw(), 0);
    }
}

#[test]
fn get_reads_the_element_at_the_index() {
    let a: [u32; 4] = [10, 20, 30, 40];
    assert_eq!(SmallIndex::<4>::new(2).get(&a), 30);
    assert_eq!(SmallIndex::<4>::new(9).get(&a), 40);
}

#[test]
fn get_mut_gives_the_place_at_the_index() {
    let mut a: [u32; 4] = [10, 20, 30, 40];
    *SmallIndex::<4>::new(1).get_mut(&mut a) += 5;
    assert_eq!(a, [10, 25, 30, 40]);
}

#[test]
fn all_lists_every_index_in_order() {
    let all = SmallIndex::<9>::all();
    assert_eq!(all.len(), 9);
    for (i, x) in all.iter().enumerate() {
        assert_eq!(x.raw() as usize, i);
    }
    assert_eq!(SmallIndex::<0>::all().len(), 0);
}

#[test]
fn priors_lists_the_indices_below() {
    let priors = SmallIndex::<9>::new(4).priors();
    let raw: Vec<u16> = priors.iter().map(|x| x.raw()).collect();
    assert_eq!(raw, vec![0, 1, 2, 3]);
    assert!(SmallIndex::<9>::new(0).priors().is_empty());
}

#[test]
fn pairs_for_pairs_an_index_with_each_lower_one() {
    let pairs = SmallIndex::<9>::pairs_for(SmallIndex::new(3));
    let raw: Vec<(u16, u16)> = pairs.iter().map(|p| (p.0.raw(), p.1.raw())).collect();
    assert_eq!(raw, vec![(3, 0), (3, 1), (3, 2)]);
}

#[test]
fn pairs_lists_each_pair_once() {
    let pairs = SmallIndex::<9>::pairs();
    assert_eq!(pairs.len(), 9);
    let mut count = 0;
    for (high, row) in pairs.iter().enumerate() {
        assert_eq!(row.len(), high);
        for (low, pair) in row.iter().enumerate() {
            assert_eq!(pair.0.raw() as usize, high);
            assert_eq!(pair.1.raw() as usize, low);
            count += 1;
        }
    }
    assert_eq!(count, 36);
}

#[test]
fn a_literal_splits_into_variable_and_polarity() {
    let (var, polarity) = SmallIndex::<1458>::new(1457).to_var();
    assert_eq!((var.raw(), polarity), (728, 1));
    let (var, polarity) = SmallIndex::<1458>::new(10).to_var();
    assert_eq!((var.raw(), polarity), (5, 0));
}

#[test]
fn a_literal_has_one_bit_of_one_word() {
    let (word, bit) = SmallIndex::<1458>::new(1457).raw_bit();
    assert_eq!((word.raw(), bit), (45, 17));
    let (word, bit) = SmallIndex::<1458>::new(31).raw_bit();
    assert_eq!((word.raw(), bit), (0, 31));
    let (word, bit) = SmallIndex::<1458>::new(32).raw_bit();
    assert_eq!((word.raw(), bit), (1, 0));
}

#[test]
fn a_variable_has_one_crumb_of_one_word() {
    let (word, crumb) = SmallIndex::<729>::new(728).raw_crumb();
    assert_eq!((word.raw(), crumb), (45, 8));
    let (word, crumb) = SmallIndex::<729>::new(15).raw_crumb();
    assert_eq!((word.raw(), crumb), (0, 15));
    let (word, crumb) = SmallIndex::<729>::new(16).raw_crumb();
    assert_eq!((word.raw(), crumb), (1, 0));
}

#[test]
fn from_var_takes_the_lowest_bit_as_polarity() {
    let var = SmallIndex::<729>::new(100);
    assert_eq!(var.from_var(1).raw(), 201);
    assert_eq!(var.from_var(0).raw(), 200);
    assert_eq!(var.from_var(3).raw(), 201);
    assert_eq!(var.from_var(2).raw(), 200);
}

#[test]
fn from_var_and_to_var_are_inverse() {
    for raw in [0u16, 1, 364, 728] {
        for polarity in [0u16, 1] {
            let literal = SmallIndex::<729>::new(raw).from_var(polarity);
            let (var, bit) = literal.to_var();
            assert_eq!((var.raw(), bit), (raw, polarity));
        }
    }
}

#[test]
fn triple_decodes_row_column_and_digit() {
    let triple = SmallIndex::<729>::new(728).triple();
    assert_eq!([triple[0].raw(), triple[1].raw(), triple[2].raw()], [8, 8, 8]);
    let triple = SmallIndex::<729>::new(4 * 81 + 7 * 9 + 2).triple();
    assert_eq!([triple[0].raw(), triple[1].raw(), triple[2].raw()], [4, 7, 2]);
}

#[test]
fn index_linearizes_row_column_and_digit() {
    let var = index(SmallIndex::new(4), SmallIndex::new(7), SmallIndex::new(2));
    assert_eq!(var.raw(), 389);
    assert_eq!(is(var).raw(), 779);
    assert_eq!(not(var).raw(), 778);
    let last = index(SmallIndex::new(8), SmallIndex::new(8), SmallIndex::new(8));
    assert_eq!(last.raw(), 728);
}

#[test]
fn the_dimensions_follow_from_the_block_size() {
    assert_eq!(N, SQRT_N * SQRT_N);
    assert_eq!(GRID, N * N);
    assert_eq!(VARS, GRID * N);
    assert_eq!(VALUES, VARS * 2);
    assert_eq!(CRUMBS, 32 / 2);
    assert_eq!(UNITS, VARS / CRUMBS + 1);
    assert_eq!(MARKS, VALUES + 1);
    // four families of 81 groups: one clause of nine literals and 36 of two each
    assert_eq!(CLAUSES, 4 * GRID * (1 + 36));
    assert_eq!(LITERALS, 4 * GRID * (N + 36 * 2));
    assert_eq!(CLAUSES, 11_988);
    assert_eq!(LITERALS, 26_244);
}
