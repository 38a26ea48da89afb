//! Why a generated puzzle can be solved: its clues are part of the solution
//! from whose search they come.
use vstd::prelude::*;
use crate::facts::{
    lemma_assign, lemma_exclude, lemma_extends_self, lemma_groups_in_range, lemma_learn,
    lemma_var_decode, lemma_with_bit, Facts,
};
use crate::groups::{block_group, cell_group, column_group, is_group, literal, row_group, var_at};
use crate::puzzle::{group_of, Puzzle};
use crate::complete::{agrees, lemma_force_agrees, obeys, satisfiable, true_in};
use crate::sound::{
    coherent, lemma_blank_coherent, lemma_clue, lemma_group_peers, lemma_peers_pair, one_holds,
    peers, solved,
};
use crate::{GRID, VALUES, VARS};

verus! {

/// What a store knows after the peers of a placement were excluded: what it
/// knew before, and that peers of the placement are false.
pub proof fn lemma_exclude_learns(
    facts: Facts,
    group: Seq<int>,
    keep: int,
    n: int,
    placed: int,
    lit: int,
)
    requires
        facts.wf(),
        is_group(group),
        0 <= n <= 9,
        0 <= lit < VALUES,
        forall|i: int| 0 <= i < 9 && i != keep ==> peers(#[trigger] group[i], placed),
        facts.exclude(group, keep, n).knows(lit),
    ensures
        facts.knows(lit) || (lit % 2 == 0 && peers(lit / 2, placed)),
    decreases n,
{
    if n > 0 {
        let before = facts.exclude(group, keep, n - 1);
        lemma_exclude(facts, group, keep, n - 1);
        if n - 1 == keep {
            lemma_exclude_learns(facts, group, keep, n - 1, placed, lit);
        } else {
            let excluded = literal(group[n - 1], false);
            lemma_with_bit(before.words, excluded, lit);
            if lit == excluded {
                assert(peers(group[n - 1], placed));
            } else {
                lemma_exclude_learns(facts, group, keep, n - 1, placed, lit);
            }
        }
    }
}

/// What a store knows after a placement: what it knew before, that the
/// placed variable is true, and that peers of it are false.
pub proof fn lemma_assign_learns(facts: Facts, row: int, column: int, value: int, lit: int)
    requires
        facts.wf(),
        0 <= row < 9,
        0 <= column < 9,
        0 <= value < 9,
        0 <= lit < VALUES,
        facts.assign(row, column, value).knows(lit),
    ensures
        facts.knows(lit) || lit == 2 * var_at(row, column, value) + 1 || (lit % 2 == 0 && peers(
            lit / 2,
            var_at(row, column, value),
        )),
{
    reveal(Facts::assign);
    let var = var_at(row, column, value);
    lemma_groups_in_range(row, column, value);
    lemma_group_peers(row, column, value);
    lemma_extends_self(facts);
    lemma_learn(facts, literal(var, true), facts);
    let s0 = facts.set(var, true);
    let columns = column_group(column, value);
    let rows = row_group(row, value);
    let cells = cell_group(row, column);
    let block = block_group(row - row % 3, column - column % 3, value);
    let place = (row % 3) * 3 + column % 3;
    lemma_exclude(s0, columns, row, 9);
    let s1 = s0.exclude(columns, row, 9);
    lemma_exclude(s1, rows, column, 9);
    let s2 = s1.exclude(rows, column, 9);
    lemma_exclude(s2, cells, value, 9);
    let s3 = s2.exclude(cells, value, 9);
    lemma_exclude_learns(s3, block, place, 9, var, lit);
    if s3.knows(lit) {
        lemma_exclude_learns(s2, cells, value, 9, var, lit);
        if s2.knows(lit) {
            lemma_exclude_learns(s1, rows, column, 9, var, lit);
            if s1.knows(lit) {
                lemma_exclude_learns(s0, columns, row, 9, var, lit);
                if s0.knows(lit) {
                    lemma_with_bit(facts.words, 2 * var + 1, lit);
                }
            }
        }
    }
}

/// In a solution, the peers of a variable that is recorded as true are known
/// to be false.
pub proof fn lemma_solved_peers(facts: Facts, var: int, peer: int)
    requires
        solved(facts),
        peers(peer, var),
        facts.knows(2 * var + 1),
    ensures
        facts.knows(2 * peer),
{
    let (family, k, low, high) = lemma_peers_pair(peer, var);
    let group = group_of(family, k);
    assert(one_holds(facts, group));
    let i = choose|i: int|
        0 <= i < 9 && #[trigger] facts.code(group[i]) == 2 && forall|j: int|
            0 <= j < 9 && j != i ==> #[trigger] facts.code(group[j]) == 1;
    if group[low] == var {
        if low != i {
            assert(facts.code(group[low]) == 1);
        }
        assert(facts.code(group[high]) == 1);
    } else {
        if high != i {
            assert(facts.code(group[high]) == 1);
        }
        assert(facts.code(group[low]) == 1);
    }
}

/// The placements among the decisions of a solution are part of the
/// solution: what the store of clues knows, the solution knows.
pub proof fn lemma_decisions_of_solution(solution: Facts, n: int, lit: int)
    requires
        solution.wf(),
        solved(solution),
        0 <= n <= GRID,
        0 <= lit < VALUES,
    ensures
        Puzzle::decisions(solution, n).wf(),
        Puzzle::decisions(solution, n).knows(lit) ==> solution.knows(lit),
    decreases n,
{
    if n <= 0 {
        lemma_blank_coherent(Facts::empty());
        assert(Facts::empty().code(lit / 2) == 0);
    } else {
        lemma_decisions_of_solution(solution, n - 1, lit);
        let before = Puzzle::decisions(solution, n - 1);
        let pos = solution.marks[n - 1];
        if pos < solution.log.len() && solution.log[pos] % 2 == 1 {
            let chosen = solution.log[pos];
            let var = chosen / 2;
            assert(solution.log.contains(chosen));
            assert(solution.knows(chosen));
            reveal(Facts::force);
            lemma_var_decode(var);
            let row = var / 81;
            let column = var / 9 % 9;
            let value = var % 9;
            lemma_assign(before, row, column, value);
            if before.assign(row, column, value).knows(lit) {
                lemma_assign_learns(before, row, column, value, lit);
                if lit % 2 == 0 && peers(lit / 2, var) && !before.knows(lit) && lit != chosen {
                    lemma_solved_peers(solution, var, lit / 2);
                }
            }
        }
    }
}

/// The store after the first `n` of the placements `vars` were made at the
/// boundary, in order: each places its variable unless something is already
/// known of it.
pub open spec fn placed(facts: Facts, vars: Seq<int>, n: int) -> Facts
    decreases n,
{
    if n <= 0 {
        facts
    } else {
        let before = placed(facts, vars, n - 1);
        if before.code(vars[n - 1]) != 0 {
            before
        } else {
            before.force(vars[n - 1], true)
        }
    }
}

/// Placements that are true in a world that obeys the rules keep a store
/// well formed, coherent and in agreement with the world.
pub proof fn lemma_placed(facts: Facts, vars: Seq<int>, n: int, world: Set<int>)
    requires
        facts.wf(),
        coherent(facts),
        obeys(world),
        agrees(facts, world),
        0 <= n <= vars.len(),
        forall|i: int|
            0 <= i < vars.len() ==> 0 <= #[trigger] vars[i] < VARS && world.contains(vars[i]),
    ensures
        placed(facts, vars, n).wf(),
        coherent(placed(facts, vars, n)),
        agrees(placed(facts, vars, n), world),
    decreases n,
{
    if n > 0 {
        lemma_placed(facts, vars, n - 1, world);
        let before = placed(facts, vars, n - 1);
        let var = vars[n - 1];
        assert(0 <= var < VARS && world.contains(var));
        if before.code(var) == 0 {
            crate::facts::lemma_force(before, var, true);
            lemma_clue(before, var);
            lemma_force_agrees(before, 2 * var + 1, world);
        }
    }
}

/// The round trip of a puzzle: a fresh store in which the clue cells of a
/// puzzle that has a solution were placed, in any order, is well formed and
/// coherent, and has a solution. So `solve` finds one in it, and leaves a
/// solved grid.
pub proof fn lemma_copy_of_clues(clues: Facts, vars: Seq<int>)
    requires
        satisfiable(clues),
        forall|i: int|
            0 <= i < vars.len() ==> 0 <= #[trigger] vars[i] < VARS && clues.knows(2 * vars[i] + 1),
    ensures
        placed(Facts::empty(), vars, vars.len() as int).wf(),
        coherent(placed(Facts::empty(), vars, vars.len() as int)),
        satisfiable(placed(Facts::empty(), vars, vars.len() as int)),
{
    let world = choose|world: Set<int>| obeys(world) && #[trigger] agrees(clues, world);
    let fresh = Facts::empty();
    lemma_blank_coherent(fresh);
    assert forall|lit: int| 0 <= lit < VALUES && #[trigger] fresh.knows(lit) implies true_in(
        world,
        lit,
    ) by {
        assert(fresh.code(lit / 2) == 0);
    }
    assert forall|i: int| 0 <= i < vars.len() implies 0 <= #[trigger] vars[i] < VARS
        && world.contains(vars[i]) by {
        assert(true_in(world, 2 * vars[i] + 1));
    }
    lemma_placed(fresh, vars, vars.len() as int, world);
    assert(obeys(world) && agrees(placed(fresh, vars, vars.len() as int), world));
}

} // verus!
