use sudoku_sat::smallindex::SmallIndex;
use sudoku_sat::sudoku::Sudoku;
use sudoku_sat::{assign, generate_instance, solve, units, units_len};

fn code(words: &[u32; 46], var: usize) -> u32 {
    (words[var / 16] >> (2 * (var % 16))) & 3
}

/// The digit of each cell, 1 to 9, or 0 where none is known; `None` where a
/// variable holds both truth values or a cell holds two digits.
fn grid(sudoku: &Sudoku) -> Option<[[u8; 9]; 9]> {
    let words = units(sudoku);
    let mut cells = [[0u8; 9]; 9];
    for row in 0..9 {
        for column in 0..9 {
            for value in 0..9 {
                match code(words, (row * 9 + column) * 9 + value) {
                    3 => return None,
                    2 => {
                        if cells[row][column] != 0 {
                            return None;
                        }
                        cells[row][column] = value as u8 + 1;
                    }
                    _ => {}
                }
            }
        }
    }
    Some(cells)
}

fn is_permutation(digits: [u8; 9]) -> bool {
    let mut seen = [false; 10];
    for d in digits {
        if d == 0 || seen[d as usize] {
            return false;
        }
        seen[d as usize] = true;
    }
    true
}

fn is_solution(cells: &[[u8; 9]; 9]) -> bool {
    for i in 0..9 {
        let mut column = [0u8; 9];
        let mut block = [0u8; 9];
        for j in 0..9 {
            column[j] = cells[j][i];
            block[j] = cells[3 * (i / 3) + j / 3][3 * (i % 3) + j % 3];
        }
        if !is_permutation(cells[i]) || !is_permutation(column) || !is_permutation(block) {
            return false;
        }
    }
    true
}

fn clues(cells: &[[u8; 9]; 9]) -> usize {
    cells.iter().flatten().filter(|&&d| d != 0).count()
}

fn with_clues(cells: &[[u8; 9]; 9]) -> Sudoku {
    let mut sudoku = Sudoku::new();
    for row in 0..9 {
        for column in 0..9 {
            if cells[row][column] != 0 {
                assign(&mut sudoku, (row * 9 + column) * 9 + cells[row][column] as usize - 1);
            }
        }
    }
    sudoku
}

#[test]
fn the_words_cover_all_variables() {
    assert_eq!(units_len(), 46);
    let sudoku = Sudoku::new();
    assert_eq!(units(&sudoku).len(), units_len());
    assert!(units(&sudoku).iter().all(|&w| w == 0));
}

#[test]
fn assign_places_the_digit_that_the_index_names() {
    let mut sudoku = Sudoku::new();
    assign(&mut sudoku, 389);
    let cells = grid(&sudoku).unwrap();
    assert_eq!(cells[4][7], 3);
    assert_eq!(clues(&cells), 1);
    assert_eq!(code(units(&sudoku), 389), 2);
    assert_eq!(code(units(&sudoku), 388), 1);
    assert_eq!(sudoku.units().known(), 29);
    assert!(sudoku.new_units_pending());
}

#[test]
fn assign_on_a_known_variable_changes_nothing() {
    let mut sudoku = Sudoku::new();
    assign(&mut sudoku, 389);
    let words = *units(&sudoku);
    let known = sudoku.units().known();
    // the same placement once more
    assign(&mut sudoku, 389);
    assert_eq!(*units(&sudoku), words);
    assert_eq!(sudoku.units().known(), known);
    // another digit in the same cell: known to be false
    assign(&mut sudoku, 390);
    assert_eq!(*units(&sudoku), words);
    // the same digit elsewhere in the row: known to be false
    assign(&mut sudoku, (4 * 9 + 0) * 9 + 2);
    assert_eq!(*units(&sudoku), words);
    assert_eq!(sudoku.units().known(), known);
}

#[test]
fn assign_on_a_fresh_cell_adds_to_what_is_known() {
    let mut sudoku = Sudoku::new();
    let mut known = 0;
    for index in [0usize, 100, 250, 400, 728] {
        if code(units(&sudoku), index) == 0 {
            assign(&mut sudoku, index);
            let now = (0..729).filter(|&v| code(units(&sudoku), v) != 0).count();
            assert!(now > known);
            known = now;
        }
    }
}

#[test]
fn assign_clamps_an_index_that_is_too_large() {
    let mut sudoku = Sudoku::new();
    assign(&mut sudoku, 729);
    assert_eq!(code(units(&sudoku), 728), 2);
    let mut sudoku = Sudoku::new();
    assign(&mut sudoku, 65_535);
    assert_eq!(code(units(&sudoku), 728), 2);
    // only the lowest sixteen bits count
    let mut sudoku = Sudoku::new();
    assign(&mut sudoku, 65_536 + 5);
    assert_eq!(code(units(&sudoku), 5), 2);
}

#[test]
fn the_random_stream_is_xorshift() {
    let mut sudoku = Sudoku::new();
    sudoku.reset(1);
    assert_eq!(sudoku.seed(), 1);
    assert_eq!(sudoku.randint(26_244), 1);
    assert_eq!(sudoku.seed(), 270_369);
    sudoku.reset(0xdead_beef);
    assert_eq!(sudoku.randint(26_244), 7328);
    assert_eq!(sudoku.seed(), 1_199_382_711);
    sudoku.reset(0xdead_beef);
    assert_eq!(sudoku.randint(100), 27);
    sudoku.reset(0xdead_beef);
    assert_eq!(sudoku.randint(65_536), 18_301);
    sudoku.reset(0xdead_beef);
    assert_eq!(sudoku.randint(0), 0);
    // state 0 is a fixed point
    sudoku.reset(0);
    assert_eq!(sudoku.randint(26_244), 0);
    assert_eq!(sudoku.seed(), 0);
}

#[test]
fn reset_forgets_everything() {
    let mut sudoku = Sudoku::new();
    assign(&mut sudoku, 5);
    sudoku.generate_clauses().unwrap();
    sudoku.reset(77);
    assert_eq!(sudoku.seed(), 77);
    assert_eq!(sudoku.clauses_count(), 0);
    assert_eq!(sudoku.literals_count(), 0);
    assert_eq!(sudoku.units().known(), 0);
    assert!(units(&sudoku).iter().all(|&w| w == 0));
}

#[test]
fn search_without_clauses_succeeds_at_once() {
    let mut sudoku = Sudoku::new();
    assert!(sudoku.dpll());
    assert_eq!(sudoku.units().known(), 0);
    assert_eq!(sudoku.units().depth(), 0);
}

#[test]
fn solve_fills_the_empty_grid() {
    let mut sudoku = Sudoku::new();
    assert!(solve(&mut sudoku));
    assert_eq!(sudoku.clauses_count(), 0);
    assert_eq!(sudoku.units().depth(), 0);
    let cells = grid(&sudoku).unwrap();
    assert!(is_solution(&cells));
    assert_eq!(sudoku.units().known(), 729);
}

#[test]
fn solve_keeps_the_clues() {
    let mut sudoku = Sudoku::new();
    sudoku.reset(2024);
    assign(&mut sudoku, (0 * 9 + 0) * 9 + 4);
    assign(&mut sudoku, (4 * 9 + 4) * 9 + 4);
    assign(&mut sudoku, (8 * 9 + 8) * 9 + 4);
    assign(&mut sudoku, (0 * 9 + 8) * 9 + 0);
    assert!(solve(&mut sudoku));
    let cells = grid(&sudoku).unwrap();
    assert!(is_solution(&cells));
    assert_eq!(cells[0][0], 5);
    assert_eq!(cells[4][4], 5);
    assert_eq!(cells[8][8], 5);
    assert_eq!(cells[0][8], 1);
}

#[test]
fn solve_solves_a_published_puzzle() {
    let rows = [
        "530070000", "600195000", "098000060", "800060003", "400803001", "700020006",
        "060000280", "000419005", "000080079",
    ];
    let solution = [
        "534678912", "672195348", "198342567", "859761423", "426853791", "713924856",
        "961537284", "287419635", "345286179",
    ];
    let mut cells = [[0u8; 9]; 9];
    let mut expected = [[0u8; 9]; 9];
    for row in 0..9 {
        for column in 0..9 {
            cells[row][column] = rows[row].as_bytes()[column] - b'0';
            expected[row][column] = solution[row].as_bytes()[column] - b'0';
        }
    }
    let mut sudoku = with_clues(&cells);
    assert!(solve(&mut sudoku));
    assert_eq!(grid(&sudoku).unwrap(), expected);
}

#[test]
fn solve_rejects_a_contradictory_grid() {
    // eight digits are in the first column, the ninth is in the first row:
    // the cell where the two meet has no digit left
    let mut sudoku = Sudoku::new();
    for v in 0..8usize {
        assign(&mut sudoku, ((1 + v) * 9 + 0) * 9 + v);
    }
    assign(&mut sudoku, (0 * 9 + 1) * 9 + 8);
    assert!(!solve(&mut sudoku));
    assert_eq!(sudoku.units().depth(), 0);
}

#[test]
fn solve_rejects_a_grid_without_solution() {
    // the first row lacks only the 9, which the column of its last cell holds
    let mut sudoku = Sudoku::new();
    for v in 0..8usize {
        assign(&mut sudoku, (0 * 9 + v) * 9 + v);
    }
    assign(&mut sudoku, (5 * 9 + 8) * 9 + 8);
    let known = sudoku.units().known();
    assert!(!solve(&mut sudoku));
    assert_eq!(sudoku.units().depth(), 0);
    assert!(sudoku.units().known() >= known);
}

#[test]
fn seed_one_gives_a_puzzle_with_few_clues() {
    let mut sudoku = Sudoku::new();
    generate_instance(&mut sudoku, 1);
    let cells = grid(&sudoku).unwrap();
    assert!(clues(&cells) < 81);
    assert!(clues(&cells) > 0);
    assert_eq!(clues(&cells), 19);
    assert_eq!(sudoku.clauses_count(), 0);
    assert_eq!(sudoku.literals_count(), 0);
    assert_eq!(sudoku.units().depth(), 0);
    assert_eq!(sudoku.seed(), 0xedbe_a74c);
}

#[test]
fn the_clues_are_decisions_of_the_recorded_solution() {
    for seed in [1u32, 2, 3, 0xdead_beef] {
        let mut reference = Sudoku::new();
        reference.reset(seed);
        reference.generate_clauses().unwrap();
        assert!(reference.dpll());
        let solved = grid(&reference).unwrap();
        assert!(is_solution(&solved));
        let mut sudoku = Sudoku::new();
        generate_instance(&mut sudoku, seed);
        let cells = grid(&sudoku).unwrap();
        for row in 0..9 {
            for column in 0..9 {
                if cells[row][column] != 0 {
                    assert_eq!(cells[row][column], solved[row][column]);
                }
            }
        }
        // the same by the replay of the reference
        reference.generate_instance();
        assert_eq!(*units(&reference), *units(&sudoku));
    }
}

#[test]
fn the_same_seed_gives_the_same_store() {
    for seed in [0u32, 1, 42, 0xffff_ffff] {
        let mut first = Sudoku::new();
        let mut second = Sudoku::new();
        // what the engine held before does not matter
        assign(&mut second, 100);
        second.generate_clauses().unwrap();
        generate_instance(&mut first, seed);
        generate_instance(&mut second, seed);
        assert_eq!(*units(&first), *units(&second));
        assert_eq!(first.seed(), second.seed());
        assert_eq!(first.units().known(), second.units().known());
    }
}

#[test]
fn different_seeds_give_different_puzzles() {
    let mut first = Sudoku::new();
    let mut second = Sudoku::new();
    generate_instance(&mut first, 1);
    generate_instance(&mut second, 2);
    assert_ne!(*units(&first), *units(&second));
}

#[test]
fn a_generated_puzzle_can_be_solved() {
    for seed in [1u32, 2, 3, 7, 42, 12_345] {
        let mut generator = Sudoku::new();
        generate_instance(&mut generator, seed);
        let cells = grid(&generator).unwrap();
        assert!(clues(&cells) < 81);
        let mut sudoku = with_clues(&cells);
        assert_eq!(*units(&sudoku), *units(&generator));
        assert!(solve(&mut sudoku));
        let solved = grid(&sudoku).unwrap();
        assert!(is_solution(&solved));
        for row in 0..9 {
            for column in 0..9 {
                if cells[row][column] != 0 {
                    assert_eq!(cells[row][column], solved[row][column]);
                }
            }
        }
    }
}

#[test]
fn solve_finds_a_solution_whatever_the_random_stream() {
    for seed in [1u32, 2, 3, 0xdead_beef, 0xffff_ffff] {
        let mut sudoku = Sudoku::new();
        sudoku.reset(seed);
        assert!(solve(&mut sudoku));
        assert!(is_solution(&grid(&sudoku).unwrap()));
        assert_eq!(sudoku.units().depth(), 0);
        assert_eq!(sudoku.units().known(), 729);
    }
}
