//! A satisfiability engine for 9×9 Sudoku.
//!
//! The rules of the game are encoded as clauses over one Boolean variable per
//! (row, column, digit); a backtracking search with unit propagation solves a
//! partially filled grid or produces a new puzzle. All storage has a fixed
//! capacity, and every function carries a contract over a mathematical model
//! of the state it works on.
//!
//! - [`smallindex`]: indices below a bound, and the index spaces.
//! - [`groups`]: variables, literals, and the groups of nine of the rules.
//! - [`facts`], [`units`]: the assignment store, as a model and as packed
//!   words with a log and checkpoints.
//! - [`puzzle`], [`sudoku`], [`generate`]: the engine, as a model and over
//!   fixed pools: insertion with unit propagation, generation, reduction,
//!   search, and the replay that makes a puzzle.
//! - [`laws`], [`sound`], [`complete`], [`pattern`], [`clues`]: what holds
//!   of the engine: the capacity of the pools is exact, a fixpoint holds no
//!   false literal, a search that succeeds has found a solution, one that
//!   fails shows that there is none, the empty grid has one, and so has
//!   every generated puzzle.
//!
//! The functions of this file are the boundary that a host calls.
use vstd::prelude::*;
use crate::clues::lemma_decisions_of_solution;
use crate::complete::{
    keeps_with, lemma_keeps_sat, lemma_keeps_unsat, lemma_part_coherent, lemma_solved_covers,
    lemma_solved_satisfiable, satisfiable,
};
use crate::facts::{lemma_extends_chain, lemma_extends_knows};
use crate::laws::lemma_generate_blank;
use crate::pattern::lemma_blank_satisfiable;
use crate::puzzle::Puzzle;
use crate::smallindex::SmallIndex;
use crate::sound::{coherent, lemma_blank_coherent, solved};
use crate::sudoku::Sudoku;

pub mod clues;
pub mod complete;
pub mod facts;
pub mod generate;
pub mod groups;
pub mod laws;
pub mod pattern;
pub mod puzzle;
pub mod smallindex;
pub mod sound;
pub mod sudoku;
pub mod units;

verus! {

/// Side length of a block.
pub const SQRT_N: usize = 3;

/// Side length of the grid, and the number of digits.
pub const N: usize = 9;

/// Number of cells.
pub const GRID: usize = 81;

/// Number of variables: one per cell and digit.
pub const VARS: usize = 729;

/// Number of literals: one per variable and polarity.
pub const VALUES: usize = 1458;

/// Number of two-bit fields in one packed word.
pub const CRUMBS: usize = 16;

/// Number of packed words that hold the truth values of all variables.
pub const UNITS: usize = 46;

/// Number of positions in the assignment log, the position past its end included.
pub const MARKS: usize = 1459;

/// Capacity of the literal pool.
pub const LITERALS: usize = 26_244;

/// Capacity of the clause pool.
pub const CLAUSES: usize = 11_988;

/// The dimensions follow from the block size, and the pools hold exactly the
/// clauses of the encoding: each of the 4 × 81 groups of nine variables gives
/// one clause of nine literals and 36 clauses of two.
pub proof fn lemma_dimensions()
    ensures
        N == SQRT_N * SQRT_N,
        GRID == N * N,
        VARS == GRID * N,
        VALUES == VARS * 2,
        CRUMBS * 2 == 32,
        UNITS == VARS / CRUMBS + 1,
        MARKS == VALUES + 1,
        CLAUSES == 4 * GRID * (1 + 36),
        LITERALS == 4 * GRID * (N + 36 * 2),
{
    assert(4 * GRID * (1 + 36) == 11_988 && 4 * GRID * (N + 36 * 2) == 26_244) by (nonlinear_arith)
        requires
            GRID == 81,
            N == 9,
    ;
}

/// The variable that a linear index of cell and digit names: the index as a
/// sixteen-bit number, or the last variable where that number is too large.
pub open spec fn clue_var(index: usize) -> int {
    if (index as u16) < VARS {
        (index as u16) as int
    } else {
        VARS - 1
    }
}

/// Places the digit that `index` names in its cell: `index` counts the cells
/// row by row and, within a cell, the digits. Where something is already
/// known of that digit in that cell, nothing changes.
pub fn assign(sudoku: &mut Sudoku, index: usize)
    requires
        old(sudoku)@.wf(),
    ensures
        old(sudoku)@.facts.code(clue_var(index)) != 0 ==> final(sudoku)@ == old(sudoku)@,
        old(sudoku)@.facts.code(clue_var(index)) == 0 ==> final(sudoku)@ == old(sudoku)@.with_facts(
            old(sudoku)@.facts.force(clue_var(index), true),
        ),
        final(sudoku)@.wf(),
        final(sudoku)@.facts.code(clue_var(index)) != 0,
        coherent(old(sudoku)@.facts) ==> coherent(final(sudoku)@.facts),
        old(sudoku)@.facts.known_vars().subset_of(final(sudoku)@.facts.known_vars()),
        old(sudoku)@.facts.code(clue_var(index)) == 0 ==> old(sudoku)@.facts.known_vars().len() + 1
            <= final(sudoku)@.facts.known_vars().len(),
        keeps_with(old(sudoku)@.facts, final(sudoku)@.facts, clue_var(index)),
{
    sudoku.assign(SmallIndex::new(index as u16));
}

/// The packed truth values: two bits per variable, sixteen variables per
/// word, the variable with the lowest number in the lowest bits; of the two
/// bits, the lower says that the variable is known false, the higher that it
/// is known true.
pub fn units(sudoku: &Sudoku) -> (r: &[u32; UNITS])
    ensures
        r@ == sudoku@.facts.words,
{
    sudoku.units().words()
}

/// The number of packed words.
pub fn units_len() -> (r: usize)
    ensures
        r == UNITS,
{
    UNITS
}

/// Generates the clauses against what is known and searches for a solution.
/// Says whether the grid has one. A grid that has a solution is never
/// refused. A grid that is accepted has one, and the store then holds it
/// with no clause left, provided that the store was coherent before, as
/// every store is that was filled through `assign`. A fault in the generation
/// shows that there is no solution. Whatever the outcome, everything that
/// was known before is still known.
pub fn solve(sudoku: &mut Sudoku) -> (found: bool)
    requires
        old(sudoku)@.wf(),
    ensures
        final(sudoku)@ == old(sudoku)@.solve().puzzle,
        found == old(sudoku)@.solve().found,
        final(sudoku)@.wf(),
        satisfiable(old(sudoku)@.facts) ==> found,
        coherent(old(sudoku)@.facts) ==> (found <==> satisfiable(old(sudoku)@.facts)),
        found && coherent(old(sudoku)@.facts) ==> solved(final(sudoku)@.facts),
        found ==> final(sudoku)@.starts.len() == 0,
        forall|lit: int|
            0 <= lit < VALUES && #[trigger] old(sudoku)@.facts.knows(lit)
                ==> final(sudoku)@.facts.knows(lit),
        final(sudoku)@.facts.extends(old(sudoku)@.facts),
        final(sudoku)@.facts.depth == old(sudoku)@.facts.depth,
{
    if sudoku.generate_clauses().is_err() {
        proof {
            assert forall|lit: int|
                0 <= lit < VALUES && #[trigger] old(sudoku)@.facts.knows(lit)
                implies sudoku@.facts.knows(lit) by {
                lemma_extends_knows(sudoku@.facts, old(sudoku)@.facts, lit);
            }
        }
        return false;
    }
    let ghost generated = sudoku@;
    let found = sudoku.dpll();
    proof {
        lemma_extends_chain(old(sudoku)@.facts, generated.facts, sudoku@.facts);
        if found && coherent(old(sudoku)@.facts) {
            lemma_solved_satisfiable(sudoku@.facts, old(sudoku)@.facts);
        }
        if !found {
            lemma_keeps_unsat(old(sudoku)@.facts, generated.facts);
        }
        assert forall|lit: int|
            0 <= lit < VALUES && #[trigger] old(sudoku)@.facts.knows(lit)
            implies sudoku@.facts.knows(lit) by {
            lemma_extends_knows(sudoku@.facts, old(sudoku)@.facts, lit);
        }
    }
    found
}

/// Generates a puzzle from `seed`: solves the empty grid with the random
/// stream started at `seed`, then leaves in the store, as clues, the
/// placements that the search had to decide on. The outcome depends on `seed`
/// alone, whatever the engine held before. Generation and search always
/// succeed: the empty grid has a solution, and the search finds one. The clues
/// are part of that solution, so that the puzzle can be solved, and the store
/// that holds them is coherent.
pub fn generate_instance(sudoku: &mut Sudoku, seed: u32)
    ensures
        final(sudoku)@ == Puzzle::instance(seed),
        final(sudoku)@.wf(),
        Puzzle::finished(seed),
        solved(Puzzle::reference(seed).facts),
        forall|lit: int|
            0 <= lit < VALUES && #[trigger] final(sudoku)@.facts.knows(lit) ==> Puzzle::reference(
                seed,
            ).facts.knows(lit),
        satisfiable(final(sudoku)@.facts),
        coherent(final(sudoku)@.facts),
{
    sudoku.reset(seed);
    let ghost start = sudoku@;
    proof {
        lemma_blank_coherent(start.facts);
        lemma_generate_blank(start);
        lemma_blank_satisfiable(start.facts);
    }
    let _generated = sudoku.generate_clauses();
    proof {
        lemma_keeps_sat(start.facts, sudoku@.facts);
    }
    let _found = sudoku.dpll();
    let ghost solution = sudoku@.facts;
    sudoku.generate_instance();
    proof {
        assert forall|lit: int|
            0 <= lit < VALUES && #[trigger] sudoku@.facts.knows(lit) implies solution.knows(
            lit,
        ) by {
            lemma_decisions_of_solution(solution, GRID as int, lit);
        }
        lemma_solved_covers(solution, sudoku@.facts);
        lemma_part_coherent(solution, sudoku@.facts);
    }
}

} // verus!
