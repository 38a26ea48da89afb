//! Why a search that fails has tried everything: whatever solution agrees
//! with what the engine knew, the engine keeps agreeing with it for as long
//! as it only propagates, and each branch of the search covers both truth
//! values of its literal.
use vstd::prelude::*;
use crate::facts::{
    lemma_extends_knows, lemma_extends_self, lemma_groups_in_range, lemma_learn, lemma_var_decode,
    lemma_with_bit, Facts,
};
use crate::groups::{
    block_group, cell_group, column_group, is_group, literal, row_group, var_at,
};
use crate::laws::{lemma_group_of, over_vars};
use crate::groups::complement;
use crate::puzzle::{
    definedness, group_of, holds, lemma_stopped_define_family, lemma_stopped_separate,
    lemma_stopped_separate_family, lemma_stopped_separate_from, scan, uniqueness, unknown, Family,
    Fault, Puzzle, Run,
};
use crate::sound::{
    layout, lemma_decode, lemma_group_peers, lemma_layout_at, lemma_member_cell, lemma_peers_pair,
    lemma_peers_range, lemma_scan_meaning, one_holds, peers, solved,
};
use crate::{VALUES, VARS};

verus! {

/// Whether literal `lit` is true in `world`, the set of the variables that
/// are true.
pub open spec fn true_in(world: Set<int>, lit: int) -> bool {
    world.contains(lit / 2) == (lit % 2 == 1)
}

/// Exactly one member of the group is true in `world`.
pub open spec fn one_in(world: Set<int>, group: Seq<int>) -> bool {
    exists|i: int|
        0 <= i < 9 && #[trigger] world.contains(group[i]) && forall|j: int|
            0 <= j < 9 && j != i ==> !#[trigger] world.contains(group[j])
}

/// The world obeys the rules: every cell has exactly one digit, and every
/// row, every column and every block has every digit in exactly one place.
pub open spec fn obeys(world: Set<int>) -> bool {
    forall|family: Family, k: int| 0 <= k < 81 ==> #[trigger] one_in(world, group_of(family, k))
}

/// Every literal that the store knows is true in `world`.
pub open spec fn agrees(facts: Facts, world: Set<int>) -> bool {
    forall|lit: int| 0 <= lit < VALUES && #[trigger] facts.knows(lit) ==> true_in(world, lit)
}

/// A literal of the clause is true in `world`.
pub open spec fn models(world: Set<int>, clause: Seq<int>) -> bool {
    exists|a: int| 0 <= a < clause.len() && true_in(world, #[trigger] clause[a])
}

/// A world that obeys the rules agrees with the store: the grid as it stands
/// has a solution.
pub open spec fn satisfiable(facts: Facts) -> bool {
    exists|world: Set<int>| obeys(world) && #[trigger] agrees(facts, world)
}

/// Every world that obeys the rules and agrees with the earlier store agrees
/// with the later: nothing was recorded that the rules and the earlier store
/// do not imply.
pub open spec fn keeps(earlier: Facts, later: Facts) -> bool {
    forall|world: Set<int>|
        obeys(world) && #[trigger] agrees(earlier, world) ==> agrees(later, world)
}

/// In a world that obeys the rules, of two peers at most one is true.
pub proof fn lemma_world_peers(world: Set<int>, a: int, b: int)
    requires
        obeys(world),
        peers(a, b),
        world.contains(a),
    ensures
        !world.contains(b),
{
    let (family, k, low, high) = lemma_peers_pair(a, b);
    let group = group_of(family, k);
    assert(one_in(world, group));
    let i = choose|i: int|
        0 <= i < 9 && #[trigger] world.contains(group[i]) && forall|j: int|
            0 <= j < 9 && j != i ==> !#[trigger] world.contains(group[j]);
    if group[low] == a {
        if low != i {
            assert(!world.contains(group[low]));
        }
        assert(!world.contains(group[high]));
    } else {
        if high != i {
            assert(!world.contains(group[high]));
        }
        assert(!world.contains(group[low]));
    }
}

/// A world that obeys the rules makes every clause of the rules true.
pub proof fn lemma_rules_model(world: Set<int>, family: Family, k: int, low: int, high: int)
    requires
        obeys(world),
        0 <= k < 81,
    ensures
        models(world, definedness(group_of(family, k))),
        0 <= low < high < 9 ==> models(world, uniqueness(group_of(family, k), low, high)),
{
    let group = group_of(family, k);
    lemma_group_of(family, k);
    assert(one_in(world, group));
    let i = choose|i: int|
        0 <= i < 9 && #[trigger] world.contains(group[i]) && forall|j: int|
            0 <= j < 9 && j != i ==> !#[trigger] world.contains(group[j]);
    let all = definedness(group);
    assert(0 <= group[i] < VARS);
    assert(all[i] == 2 * group[i] + 1);
    assert(true_in(world, all[i]));
    if 0 <= low < high < 9 {
        let pair = uniqueness(group, low, high);
        assert(0 <= group[low] < VARS && 0 <= group[high] < VARS);
        assert(pair[0] == 2 * group[low] && pair[1] == 2 * group[high]);
        if low != i {
            assert(!world.contains(group[low]));
            assert(true_in(world, pair[0]));
        } else {
            assert(!world.contains(group[high]));
            assert(true_in(world, pair[1]));
        }
    }
}

/// A world that agrees with a store agrees with every store that the store
/// extends.
pub proof fn lemma_agrees_earlier(later: Facts, earlier: Facts, world: Set<int>)
    requires
        later.wf(),
        earlier.wf(),
        later.extends(earlier),
        agrees(later, world),
    ensures
        agrees(earlier, world),
{
    assert forall|lit: int| 0 <= lit < VALUES && #[trigger] earlier.knows(lit) implies true_in(
        world,
        lit,
    ) by {
        lemma_extends_knows(later, earlier, lit);
    }
}

/// Whether a world agrees with a store is a matter of the packed words
/// alone.
pub proof fn lemma_agrees_words(first: Facts, second: Facts, world: Set<int>)
    requires
        first.words == second.words,
        agrees(first, world),
    ensures
        agrees(second, world),
{
    assert forall|lit: int| 0 <= lit < VALUES && #[trigger] second.knows(lit) implies true_in(
        world,
        lit,
    ) by {
        assert(first.knows(lit));
    }
}

/// Recording a literal that is true in a world keeps the store in agreement
/// with the world.
pub proof fn lemma_learn_agrees(facts: Facts, lit: int, world: Set<int>)
    requires
        facts.wf(),
        0 <= lit < VALUES,
        agrees(facts, world),
        true_in(world, lit),
    ensures
        agrees(facts.learn(lit), world),
{
    let after = facts.learn(lit);
    assert forall|x: int| 0 <= x < VALUES && #[trigger] after.knows(x)
        implies true_in(world, x) by {
        lemma_with_bit(facts.words, lit, x);
        if x != lit {
            assert(facts.knows(x));
        }
    }
}

/// Excluding the peers of a variable that is true in a world that obeys the
/// rules keeps the store in agreement with the world.
pub proof fn lemma_exclude_agrees(
    facts: Facts,
    group: Seq<int>,
    keep: int,
    n: int,
    placed: int,
    world: Set<int>,
)
    requires
        facts.wf(),
        is_group(group),
        0 <= n <= 9,
        obeys(world),
        world.contains(placed),
        forall|i: int| 0 <= i < 9 && i != keep ==> peers(#[trigger] group[i], placed),
        agrees(facts, world),
    ensures
        facts.exclude(group, keep, n).wf(),
        agrees(facts.exclude(group, keep, n), world),
    decreases n,
{
    if n > 0 {
        lemma_exclude_agrees(facts, group, keep, n - 1, placed, world);
        let before = facts.exclude(group, keep, n - 1);
        if n - 1 != keep {
            let var = group[n - 1];
            assert(peers(var, placed));
            lemma_peers_range(var, placed);
            lemma_world_peers_back(world, placed, var);
            lemma_extends_self(before);
            lemma_learn(before, literal(var, false), before);
            lemma_learn_agrees(before, 2 * var, world);
        }
    }
}

/// In a world that obeys the rules, the peers of a true variable are false.
pub proof fn lemma_world_peers_back(world: Set<int>, placed: int, var: int)
    requires
        obeys(world),
        peers(var, placed),
        world.contains(placed),
    ensures
        !world.contains(var),
{
    if world.contains(var) {
        lemma_world_peers(world, var, placed);
    }
}

/// A placement that is true in a world that obeys the rules keeps the store
/// in agreement with the world.
pub proof fn lemma_assign_agrees(facts: Facts, row: int, column: int, value: int, world: Set<int>)
    requires
        facts.wf(),
        0 <= row < 9,
        0 <= column < 9,
        0 <= value < 9,
        obeys(world),
        world.contains(var_at(row, column, value)),
        agrees(facts, world),
    ensures
        agrees(facts.assign(row, column, value), world),
{
    reveal(Facts::assign);
    let var = var_at(row, column, value);
    lemma_groups_in_range(row, column, value);
    lemma_group_peers(row, column, value);
    lemma_extends_self(facts);
    lemma_learn(facts, literal(var, true), facts);
    lemma_learn_agrees(facts, 2 * var + 1, world);
    let s0 = facts.set(var, true);
    lemma_exclude_agrees(s0, column_group(column, value), row, 9, var, world);
    let s1 = s0.exclude(column_group(column, value), row, 9);
    lemma_exclude_agrees(s1, row_group(row, value), column, 9, var, world);
    let s2 = s1.exclude(row_group(row, value), column, 9);
    lemma_exclude_agrees(s2, cell_group(row, column), value, 9, var, world);
    let s3 = s2.exclude(cell_group(row, column), value, 9);
    let block = block_group(row - row % 3, column - column % 3, value);
    lemma_exclude_agrees(s3, block, (row % 3) * 3 + column % 3, 9, var, world);
}

/// Every world that obeys the rules, agrees with the earlier store and has
/// variable `var` true agrees with the later store.
pub open spec fn keeps_with(earlier: Facts, later: Facts, var: int) -> bool {
    forall|world: Set<int>|
        obeys(world) && #[trigger] agrees(earlier, world) && world.contains(var) ==> agrees(
            later,
            world,
        )
}

/// A placement keeps every world in which the placed variable is true.
pub proof fn lemma_clue_keeps(facts: Facts, var: int)
    requires
        facts.wf(),
        0 <= var < VARS,
    ensures
        keeps_with(facts, facts.force(var, true), var),
        keeps_with(facts, facts, var),
{
    assert forall|world: Set<int>|
        obeys(world) && #[trigger] agrees(facts, world) && world.contains(var) implies agrees(
        facts.force(var, true),
        world,
    ) by {
        lemma_force_agrees(facts, 2 * var + 1, world);
    }
}

/// Forcing a literal that is true in a world that obeys the rules keeps the
/// store in agreement with the world.
pub proof fn lemma_force_agrees(facts: Facts, lit: int, world: Set<int>)
    requires
        facts.wf(),
        0 <= lit < VALUES,
        obeys(world),
        true_in(world, lit),
        agrees(facts, world),
    ensures
        agrees(facts.force(lit / 2, lit % 2 == 1), world),
{
    reveal(Facts::force);
    let var = lit / 2;
    if lit % 2 == 1 {
        lemma_var_decode(var);
        lemma_assign_agrees(facts, var / 81, var / 9 % 9, var % 9, world);
    } else {
        lemma_learn_agrees(facts, lit, world);
    }
}

/// A literal of which something is known, and that is not known to hold, is
/// false in every world that agrees with the store.
pub proof fn lemma_dropped_false(facts: Facts, lit: int, world: Set<int>)
    requires
        0 <= lit < VALUES,
        agrees(facts, world),
        !unknown(facts, lit),
        !holds(facts, lit),
    ensures
        !true_in(world, lit),
{
    let var = lit / 2;
    if lit % 2 == 1 {
        assert(facts.knows(2 * var));
        assert(true_in(world, 2 * var));
    } else {
        assert(facts.knows(2 * var + 1));
        assert(true_in(world, 2 * var + 1));
    }
}

/// Where a world agrees with the store and makes one of the first literals
/// of a clause true, an examination that is not satisfied has kept a literal
/// that is true in the world.
pub proof fn lemma_scan_models(facts: Facts, clause: Seq<int>, n: int, world: Set<int>)
    requires
        agrees(facts, world),
        over_vars(clause),
        0 <= n <= clause.len(),
        models(world, clause.take(n)),
        !scan(facts, clause, n).satisfied,
    ensures
        models(world, scan(facts, clause, n).kept),
    decreases n,
{
    let a = choose|a: int| 0 <= a < clause.take(n).len()
        && true_in(world, #[trigger] clause.take(n)[a]);
    assert(clause.take(n)[a] == clause[a]);
    let before = scan(facts, clause, n - 1);
    let after = scan(facts, clause, n);
    let last = clause[n - 1];
    assert(0 <= last / 2 < VARS);
    if unknown(facts, last) {
        if a == n - 1 {
            assert(after.kept[before.kept.len() as int] == last);
            assert(true_in(world, after.kept[before.kept.len() as int]));
        } else {
            assert(clause.take(n - 1)[a] == clause[a]);
            assert(true_in(world, clause.take(n - 1)[a]));
            lemma_scan_models(facts, clause, n - 1, world);
            let b = choose|b: int|
                0 <= b < before.kept.len() && true_in(world, #[trigger] before.kept[b]);
            assert(after.kept[b] == before.kept[b]);
            assert(true_in(world, after.kept[b]));
        }
    } else {
        lemma_dropped_false(facts, last, world);
        assert(a != n - 1);
        assert(clause.take(n - 1)[a] == clause[a]);
        assert(true_in(world, clause.take(n - 1)[a]));
        lemma_scan_models(facts, clause, n - 1, world);
    }
}

/// Every stored clause has a literal that is true in `world`.
pub open spec fn entailed(puzzle: Puzzle, world: Set<int>) -> bool {
    forall|j: int| 0 <= j < puzzle.starts.len() ==> models(world, #[trigger] puzzle.clause(j))
}

/// The stored clauses say nothing that the rules and the store do not imply:
/// every world that obeys the rules and agrees with the store makes every
/// stored clause true.
pub open spec fn faithful(puzzle: Puzzle) -> bool {
    forall|world: Set<int>|
        obeys(world) && #[trigger] agrees(puzzle.facts, world) ==> entailed(puzzle, world)
}

/// The engine is in agreement with a world: its store is well formed and
/// agrees with the world, its stored clauses lie within the pool, and the
/// world makes each of them true.
pub open spec fn sides_with(puzzle: Puzzle, world: Set<int>) -> bool {
    &&& puzzle.facts.wf()
    &&& layout(puzzle)
    &&& agrees(puzzle.facts, world)
    &&& entailed(puzzle, world)
}

/// What a run does to an engine that is in agreement with a world that obeys
/// the rules: it does not end in an empty clause, and where it ends without
/// a fault, the engine is still in agreement with the world and its store
/// extends the one before.
pub open spec fn upholds(start: Puzzle, run: Run, world: Set<int>) -> bool {
    &&& run.fault != Some(Fault::EmptyClause)
    &&& run.fault is None ==> sides_with(run.puzzle, world) && run.puzzle.facts.extends(
        start.facts,
    )
}

/// The submission of a clause that is true in a world upholds the agreement
/// of the engine with the world.
pub proof fn lemma_insert_complete(puzzle: Puzzle, clause: Seq<int>, world: Set<int>)
    requires
        obeys(world),
        sides_with(puzzle, world),
        over_vars(clause),
        models(world, clause),
    ensures
        upholds(puzzle, puzzle.insert(clause), world),
{
    reveal(Puzzle::insert);
    let facts = puzzle.facts;
    let after = puzzle.insert(clause).puzzle;
    let found = scan(facts, clause, clause.len() as int);
    lemma_scan_meaning(facts, clause, clause.len() as int);
    lemma_extends_self(facts);
    assert(clause.take(clause.len() as int) =~= clause);
    if found.satisfied {
    } else {
        lemma_scan_models(facts, clause, clause.len() as int, world);
        let b = choose|b: int| 0 <= b < found.kept.len()
            && true_in(world, #[trigger] found.kept[b]);
        if found.kept.len() == 1 {
            let lit = found.kept[0];
            assert(unknown(facts, lit) && clause.contains(lit));
            let a = choose|a: int| 0 <= a < clause.len() && clause[a] == lit;
            assert(0 <= clause[a] / 2 < VARS);
            crate::facts::lemma_force(facts, lit / 2, lit % 2 == 1);
            lemma_force_agrees(facts, lit, world);
            assert forall|j: int| 0 <= j < after.starts.len() implies models(
                world,
                #[trigger] after.clause(j),
            ) by {
                assert(after.end(j) == puzzle.end(j));
                assert(after.clause(j) == puzzle.clause(j));
            }
            assert forall|j: int| 0 <= j < after.starts.len() implies after.starts[j]
                <= #[trigger] after.end(j) && after.end(j) <= after.pool.len() by {
                lemma_layout_at(puzzle, j);
                assert(after.end(j) == puzzle.end(j));
            }
        } else if puzzle.pool.len() + found.kept.len() > crate::LITERALS || puzzle.starts.len()
            >= crate::CLAUSES {
        } else {
            let last = puzzle.starts.len() as int;
            assert forall|j: int| 0 <= j < after.starts.len()
                implies 0 <= #[trigger] after.starts[j] by {
                if j < last {
                    lemma_layout_at(puzzle, j);
                }
            }
            assert forall|j: int| 0 <= j < after.starts.len() implies after.starts[j]
                <= #[trigger] after.end(j) && after.end(j) <= after.pool.len() by {
                if j < last {
                    lemma_layout_at(puzzle, j);
                }
            }
            assert forall|j: int| 0 <= j < after.starts.len() implies models(
                world,
                #[trigger] after.clause(j),
            ) by {
                if j < last {
                    lemma_layout_at(puzzle, j);
                    assert(after.end(j) == puzzle.end(j));
                    assert(after.clause(j) =~= puzzle.clause(j));
                } else {
                    assert(after.clause(last) =~= found.kept);
                }
            }
        }
    }
}

/// To uphold the agreement with a world is transitive along a run.
pub proof fn lemma_upholds_chain(start: Puzzle, middle: Run, end: Run, world: Set<int>)
    requires
        upholds(start, middle, world),
        middle.fault is None ==> upholds(middle.puzzle, end, world),
        middle.fault is Some ==> end == middle,
    ensures
        upholds(start, end, world),
{
    if middle.fault is None && end.fault is None {
        crate::facts::lemma_extends_chain(start.facts, middle.puzzle.facts, end.puzzle.facts);
    }
}

/// The pairs of one member of a group with those before it uphold the
/// agreement of the engine with a world that obeys the rules.
pub proof fn lemma_separate_from_complete(
    run: Run,
    family: Family,
    k: int,
    high: int,
    n: int,
    world: Set<int>,
)
    requires
        obeys(world),
        run.fault is None,
        sides_with(run.puzzle, world),
        0 <= k < 81,
        0 <= n <= high < 9,
    ensures
        upholds(run.puzzle, run.separate_from(group_of(family, k), high, n), world),
    decreases n,
{
    let group = group_of(family, k);
    if n <= 0 {
        lemma_extends_self(run.puzzle.facts);
    } else {
        let before = run.separate_from(group, high, n - 1);
        let after = run.separate_from(group, high, n);
        let clause = uniqueness(group, n - 1, high);
        lemma_group_of(family, k);
        lemma_separate_from_complete(run, family, k, high, n - 1, world);
        if before.fault is None {
            lemma_rules_model(world, family, k, n - 1, high);
            lemma_insert_complete(before.puzzle, clause, world);
        }
        lemma_upholds_chain(run.puzzle, before, after, world);
    }
}

/// The pairs among the first members of a group uphold the agreement of the
/// engine with a world that obeys the rules.
pub proof fn lemma_separate_complete(run: Run, family: Family, k: int, n: int, world: Set<int>)
    requires
        obeys(world),
        run.fault is None,
        sides_with(run.puzzle, world),
        0 <= k < 81,
        0 <= n <= 9,
    ensures
        upholds(run.puzzle, run.separate(group_of(family, k), n), world),
    decreases n,
{
    let group = group_of(family, k);
    if n <= 0 {
        lemma_extends_self(run.puzzle.facts);
    } else {
        let before = run.separate(group, n - 1);
        let after = run.separate(group, n);
        lemma_separate_complete(run, family, k, n - 1, world);
        if before.fault is None {
            lemma_separate_from_complete(before, family, k, n - 1, n - 1, world);
        } else {
            lemma_stopped_separate_from(before, group, n - 1, 0, n - 1);
        }
        lemma_upholds_chain(run.puzzle, before, after, world);
    }
}

/// The definedness clauses of a family uphold the agreement of the engine
/// with a world that obeys the rules.
pub proof fn lemma_define_family_complete(run: Run, family: Family, n: int, world: Set<int>)
    requires
        obeys(world),
        run.fault is None,
        sides_with(run.puzzle, world),
        0 <= n <= 81,
    ensures
        upholds(run.puzzle, run.define_family(family, n), world),
    decreases n,
{
    if n <= 0 {
        lemma_extends_self(run.puzzle.facts);
    } else {
        let before = run.define_family(family, n - 1);
        let after = run.define_family(family, n);
        lemma_define_family_complete(run, family, n - 1, world);
        if before.fault is None {
            lemma_group_of(family, n - 1);
            lemma_rules_model(world, family, n - 1, 0, 0);
            lemma_insert_complete(before.puzzle, definedness(group_of(family, n - 1)), world);
        }
        lemma_upholds_chain(run.puzzle, before, after, world);
    }
}

/// The uniqueness clauses of a family uphold the agreement of the engine
/// with a world that obeys the rules.
pub proof fn lemma_separate_family_complete(run: Run, family: Family, n: int, world: Set<int>)
    requires
        obeys(world),
        run.fault is None,
        sides_with(run.puzzle, world),
        0 <= n <= 81,
    ensures
        upholds(run.puzzle, run.separate_family(family, n), world),
    decreases n,
{
    if n <= 0 {
        lemma_extends_self(run.puzzle.facts);
    } else {
        let before = run.separate_family(family, n - 1);
        let after = run.separate_family(family, n);
        lemma_separate_family_complete(run, family, n - 1, world);
        if before.fault is None {
            lemma_separate_complete(before, family, n - 1, 9, world);
        } else {
            lemma_stopped_separate(before, group_of(family, n - 1), 0, 9);
        }
        lemma_upholds_chain(run.puzzle, before, after, world);
    }
}

/// A generation upholds the agreement of the store with a world that obeys
/// the rules.
pub proof fn lemma_generate_complete(puzzle: Puzzle, world: Set<int>)
    requires
        puzzle.facts.wf(),
        obeys(world),
        agrees(puzzle.facts, world),
    ensures
        upholds(puzzle.cleared(), puzzle.generate(), world),
{
    reveal(Puzzle::generate);
    let start = puzzle.cleared();
    lemma_agrees_words(puzzle.facts, start.facts, world);
    lemma_extends_self(start.facts);
    let s0 = Run::ok(start);
    let s1 = s0.define_family(Family::Cell, 81);
    let s2 = s1.define_family(Family::Row, 81);
    let s3 = s2.define_family(Family::Column, 81);
    let s4 = s3.define_family(Family::Block, 81);
    let s5 = s4.separate_family(Family::Cell, 81);
    let s6 = s5.separate_family(Family::Row, 81);
    let s7 = s6.separate_family(Family::Column, 81);
    let s8 = s7.separate_family(Family::Block, 81);
    lemma_define_family_complete(s0, Family::Cell, 81, world);
    if s1.fault is None {
        lemma_define_family_complete(s1, Family::Row, 81, world);
    } else {
        lemma_stopped_define_family(s1, Family::Row, 0, 81);
    }
    lemma_upholds_chain(start, s1, s2, world);
    if s2.fault is None {
        lemma_define_family_complete(s2, Family::Column, 81, world);
    } else {
        lemma_stopped_define_family(s2, Family::Column, 0, 81);
    }
    lemma_upholds_chain(start, s2, s3, world);
    if s3.fault is None {
        lemma_define_family_complete(s3, Family::Block, 81, world);
    } else {
        lemma_stopped_define_family(s3, Family::Block, 0, 81);
    }
    lemma_upholds_chain(start, s3, s4, world);
    if s4.fault is None {
        lemma_separate_family_complete(s4, Family::Cell, 81, world);
    } else {
        lemma_stopped_separate_family(s4, Family::Cell, 0, 81);
    }
    lemma_upholds_chain(start, s4, s5, world);
    if s5.fault is None {
        lemma_separate_family_complete(s5, Family::Row, 81, world);
    } else {
        lemma_stopped_separate_family(s5, Family::Row, 0, 81);
    }
    lemma_upholds_chain(start, s5, s6, world);
    if s6.fault is None {
        lemma_separate_family_complete(s6, Family::Column, 81, world);
    } else {
        lemma_stopped_separate_family(s6, Family::Column, 0, 81);
    }
    lemma_upholds_chain(start, s6, s7, world);
    if s7.fault is None {
        lemma_separate_family_complete(s7, Family::Block, 81, world);
    } else {
        lemma_stopped_separate_family(s7, Family::Block, 0, 81);
    }
    lemma_upholds_chain(start, s7, s8, world);
}

/// The submission of the stored clauses of an engine whose clauses a world
/// makes true upholds the agreement with the world.
pub proof fn lemma_resubmit_complete(run: Run, source: Puzzle, n: int, world: Set<int>)
    requires
        obeys(world),
        run.fault is None,
        sides_with(run.puzzle, world),
        source.wf(),
        entailed(source, world),
        0 <= n <= source.starts.len(),
    ensures
        upholds(run.puzzle, run.resubmit(source, n), world),
    decreases n,
{
    if n <= 0 {
        lemma_extends_self(run.puzzle.facts);
    } else {
        let before = run.resubmit(source, n - 1);
        let after = run.resubmit(source, n);
        let clause = source.clause(n - 1);
        lemma_resubmit_complete(run, source, n - 1, world);
        if before.fault is None && clause.len() <= 9 {
            assert(source.starts[n - 1] + 2 <= source.end(n - 1) <= source.pool.len());
            assert(over_vars(clause)) by {
                assert forall|i: int| 0 <= i < clause.len() implies 0 <= #[trigger] (clause[i] / 2)
                    < VARS by {
                    assert(clause[i] == source.pool[source.starts[n - 1] + i]);
                }
            }
            lemma_insert_complete(before.puzzle, clause, world);
        }
        if before.fault is None && after.fault is None {
            crate::facts::lemma_extends_chain(
                run.puzzle.facts,
                before.puzzle.facts,
                after.puzzle.facts,
            );
        }
    }
}

/// A reduction upholds the agreement of the engine with a world that obeys
/// the rules.
pub proof fn lemma_reduce_complete(puzzle: Puzzle, world: Set<int>)
    requires
        puzzle.wf(),
        obeys(world),
        agrees(puzzle.facts, world),
        entailed(puzzle, world),
    ensures
        upholds(puzzle.cleared(), puzzle.reduce(), world),
{
    reveal(Puzzle::reduce);
    let start = puzzle.cleared();
    lemma_agrees_words(puzzle.facts, start.facts, world);
    lemma_resubmit_complete(Run::ok(start), puzzle, puzzle.starts.len() as int, world);
}

/// No stored clause has more literals than a group has members.
pub open spec fn narrow(puzzle: Puzzle) -> bool {
    forall|j: int| 0 <= j < puzzle.starts.len() ==> (#[trigger] puzzle.clause(j)).len() <= 9
}

/// The stored clauses of the engine at the end of a run without a fault lie
/// within the pool, and none has more literals than a group has members.
pub open spec fn trim(run: Run) -> bool {
    run.fault is None ==> layout(run.puzzle) && narrow(run.puzzle)
}

/// The submission of a clause of at most nine literals keeps the stored
/// clauses trim.
pub proof fn lemma_insert_trim(puzzle: Puzzle, clause: Seq<int>)
    requires
        layout(puzzle),
        narrow(puzzle),
        clause.len() <= 9,
    ensures
        trim(puzzle.insert(clause)),
{
    reveal(Puzzle::insert);
    let after = puzzle.insert(clause).puzzle;
    let found = scan(puzzle.facts, clause, clause.len() as int);
    crate::puzzle::lemma_scan_bound(puzzle.facts, clause, clause.len() as int);
    let last = puzzle.starts.len() as int;
    if puzzle.insert(clause).fault is None {
        assert forall|j: int| 0 <= j < after.starts.len()
            implies 0 <= #[trigger] after.starts[j] by {
            if j < last {
                lemma_layout_at(puzzle, j);
            }
        }
        assert forall|j: int| 0 <= j < after.starts.len() implies after.starts[j]
            <= #[trigger] after.end(j) && after.end(j) <= after.pool.len() by {
            if j < last {
                lemma_layout_at(puzzle, j);
                if after.starts.len() == last {
                    assert(after.end(j) == puzzle.end(j));
                }
            }
        }
        assert forall|j: int| 0 <= j < after.starts.len() implies (#[trigger] after.clause(j)).len()
            <= 9 by {
            if j < last {
                lemma_layout_at(puzzle, j);
                assert(after.end(j) == puzzle.end(j));
                assert(puzzle.clause(j).len() <= 9);
            }
        }
    }
}

/// The pairs of one member of a group with those before it keep the stored
/// clauses trim.
pub proof fn lemma_separate_from_trim(run: Run, group: Seq<int>, high: int, n: int)
    requires
        trim(run),
        0 <= n,
    ensures
        trim(run.separate_from(group, high, n)),
    decreases n,
{
    if n > 0 {
        lemma_separate_from_trim(run, group, high, n - 1);
        let before = run.separate_from(group, high, n - 1);
        if before.fault is None {
            lemma_insert_trim(before.puzzle, uniqueness(group, n - 1, high));
        }
    }
}

/// The pairs among the first members of a group keep the stored clauses
/// trim.
pub proof fn lemma_separate_trim(run: Run, group: Seq<int>, n: int)
    requires
        trim(run),
        0 <= n,
    ensures
        trim(run.separate(group, n)),
    decreases n,
{
    if n > 0 {
        lemma_separate_trim(run, group, n - 1);
        lemma_separate_from_trim(run.separate(group, n - 1), group, n - 1, n - 1);
    }
}

/// The definedness clauses of a family keep the stored clauses trim.
pub proof fn lemma_define_family_trim(run: Run, family: Family, n: int)
    requires
        trim(run),
        0 <= n <= 81,
    ensures
        trim(run.define_family(family, n)),
    decreases n,
{
    if n > 0 {
        lemma_define_family_trim(run, family, n - 1);
        let before = run.define_family(family, n - 1);
        if before.fault is None {
            lemma_group_of(family, n - 1);
            lemma_insert_trim(before.puzzle, definedness(group_of(family, n - 1)));
        }
    }
}

/// The uniqueness clauses of a family keep the stored clauses trim.
pub proof fn lemma_separate_family_trim(run: Run, family: Family, n: int)
    requires
        trim(run),
        0 <= n <= 81,
    ensures
        trim(run.separate_family(family, n)),
    decreases n,
{
    if n > 0 {
        lemma_separate_family_trim(run, family, n - 1);
        lemma_separate_trim(run.separate_family(family, n - 1), group_of(family, n - 1), 9);
    }
}

/// A generation that ends without a fault leaves the stored clauses trim.
pub proof fn lemma_generate_trim(puzzle: Puzzle)
    ensures
        trim(puzzle.generate()),
{
    reveal(Puzzle::generate);
    let s0 = Run::ok(puzzle.cleared());
    lemma_define_family_trim(s0, Family::Cell, 81);
    let s1 = s0.define_family(Family::Cell, 81);
    lemma_define_family_trim(s1, Family::Row, 81);
    let s2 = s1.define_family(Family::Row, 81);
    lemma_define_family_trim(s2, Family::Column, 81);
    let s3 = s2.define_family(Family::Column, 81);
    lemma_define_family_trim(s3, Family::Block, 81);
    let s4 = s3.define_family(Family::Block, 81);
    lemma_separate_family_trim(s4, Family::Cell, 81);
    let s5 = s4.separate_family(Family::Cell, 81);
    lemma_separate_family_trim(s5, Family::Row, 81);
    let s6 = s5.separate_family(Family::Row, 81);
    lemma_separate_family_trim(s6, Family::Column, 81);
    let s7 = s6.separate_family(Family::Column, 81);
    lemma_separate_family_trim(s7, Family::Block, 81);
}

/// The submission of the stored clauses of an engine of which none has more
/// than nine literals finds no oversized clause, and keeps the stored clauses
/// trim.
pub proof fn lemma_resubmit_trim(run: Run, source: Puzzle, n: int)
    requires
        trim(run),
        run.fault != Some(Fault::OversizedClause),
        narrow(source),
        0 <= n <= source.starts.len(),
    ensures
        trim(run.resubmit(source, n)),
        run.resubmit(source, n).fault != Some(Fault::OversizedClause),
    decreases n,
{
    reveal(Puzzle::insert);
    if n > 0 {
        lemma_resubmit_trim(run, source, n - 1);
        let before = run.resubmit(source, n - 1);
        if before.fault is None {
            assert(source.clause(n - 1).len() <= 9);
            lemma_insert_trim(before.puzzle, source.clause(n - 1));
        }
    }
}

/// A reduction of an engine of which no stored clause has more than nine
/// literals finds no oversized clause, and keeps the stored clauses trim.
pub proof fn lemma_reduce_trim(puzzle: Puzzle)
    requires
        narrow(puzzle),
    ensures
        trim(puzzle.reduce()),
        puzzle.reduce().fault != Some(Fault::OversizedClause),
{
    reveal(Puzzle::reduce);
    lemma_resubmit_trim(Run::ok(puzzle.cleared()), puzzle, puzzle.starts.len() as int);
}

/// The engine is fit for an exhaustive search: its stored clauses are
/// faithful, and none has more literals than a group has members.
pub open spec fn fit(puzzle: Puzzle) -> bool {
    &&& faithful(puzzle)
    &&& narrow(puzzle)
}

/// What a step leaves of the worlds: the step is `run`, from an engine with
/// store `before`. An empty clause shows that no world that obeys the rules
/// agreed with the store; where the step ends without a fault, every world
/// that agreed with the store still agrees, and the clauses stored say
/// nothing more than the rules and the store.
pub open spec fn sifts(before: Facts, run: Run) -> bool {
    &&& run.fault == Some(Fault::EmptyClause) ==> !satisfiable(before)
    &&& run.fault is None ==> fit(run.puzzle) && keeps(before, run.puzzle.facts)
}

/// A generation sifts the worlds.
pub proof fn lemma_generate_sifts(puzzle: Puzzle)
    requires
        puzzle.facts.wf(),
        puzzle.generate().fault is None ==> puzzle.generate().puzzle.facts.wf()
            && puzzle.generate().puzzle.facts.extends(puzzle.cleared().facts),
    ensures
        sifts(puzzle.facts, puzzle.generate()),
{
    let run = puzzle.generate();
    let start = puzzle.cleared();
    lemma_generate_trim(puzzle);
    if run.fault == Some(Fault::EmptyClause) && satisfiable(puzzle.facts) {
        let world = choose|world: Set<int>| obeys(world) && #[trigger] agrees(puzzle.facts, world);
        lemma_generate_complete(puzzle, world);
    }
    if run.fault is None {
        assert forall|world: Set<int>| obeys(world) && #[trigger] agrees(
            puzzle.facts,
            world,
        ) implies agrees(run.puzzle.facts, world) by {
            lemma_generate_complete(puzzle, world);
        }
        assert forall|world: Set<int>| obeys(world) && #[trigger] agrees(
            run.puzzle.facts,
            world,
        ) implies entailed(run.puzzle, world) by {
            lemma_agrees_earlier(run.puzzle.facts, start.facts, world);
            lemma_agrees_words(start.facts, puzzle.facts, world);
            lemma_generate_complete(puzzle, world);
        }
    }
}

/// A reduction of an engine that is fit for an exhaustive search sifts the
/// worlds, and its one fault is the empty clause.
pub proof fn lemma_reduce_sifts(puzzle: Puzzle)
    requires
        puzzle.wf(),
        fit(puzzle),
        puzzle.reduce().fault is None ==> puzzle.reduce().puzzle.facts.wf()
            && puzzle.reduce().puzzle.facts.extends(puzzle.cleared().facts),
    ensures
        sifts(puzzle.facts, puzzle.reduce()),
        puzzle.reduce().fault != Some(Fault::OversizedClause),
{
    let run = puzzle.reduce();
    let start = puzzle.cleared();
    lemma_reduce_trim(puzzle);
    if run.fault == Some(Fault::EmptyClause) && satisfiable(puzzle.facts) {
        let world = choose|world: Set<int>| obeys(world) && #[trigger] agrees(puzzle.facts, world);
        lemma_reduce_complete(puzzle, world);
    }
    if run.fault is None {
        assert forall|world: Set<int>| obeys(world) && #[trigger] agrees(
            puzzle.facts,
            world,
        ) implies agrees(run.puzzle.facts, world) by {
            lemma_reduce_complete(puzzle, world);
        }
        assert forall|world: Set<int>| obeys(world) && #[trigger] agrees(
            run.puzzle.facts,
            world,
        ) implies entailed(run.puzzle, world) by {
            lemma_agrees_earlier(run.puzzle.facts, start.facts, world);
            lemma_agrees_words(start.facts, puzzle.facts, world);
            lemma_reduce_complete(puzzle, world);
        }
    }
}

/// Where no world agrees with the later store, and every world that agreed
/// with the earlier agrees with the later, no world agrees with the earlier.
pub proof fn lemma_keeps_unsat(earlier: Facts, later: Facts)
    requires
        keeps(earlier, later),
        !satisfiable(later),
    ensures
        !satisfiable(earlier),
{
    if satisfiable(earlier) {
        let world = choose|world: Set<int>| obeys(world) && #[trigger] agrees(earlier, world);
        assert(agrees(later, world));
    }
}

/// Where a world agrees with the earlier store, and every world that agrees
/// with the earlier agrees with the later, a world agrees with the later.
pub proof fn lemma_keeps_sat(earlier: Facts, later: Facts)
    requires
        keeps(earlier, later),
        satisfiable(earlier),
    ensures
        satisfiable(later),
{
    let world = choose|world: Set<int>| obeys(world) && #[trigger] agrees(earlier, world);
    assert(obeys(world) && agrees(later, world));
}

/// In a solution, every variable is known to be true and nothing else, or
/// known to be false and nothing else.
pub proof fn lemma_solved_code(solution: Facts, var: int)
    requires
        solved(solution),
        0 <= var < VARS,
    ensures
        solution.code(var) == 1 || solution.code(var) == 2,
{
    lemma_decode(var);
    let row = crate::groups::row_of(var);
    let column = crate::groups::column_of(var);
    let digit = crate::groups::digit_of(var);
    lemma_member_cell(row, column, digit);
    let group = group_of(Family::Cell, row * 9 + column);
    assert(one_holds(solution, group));
    let i = choose|i: int|
        0 <= i < 9 && #[trigger] solution.code(group[i]) == 2 && forall|j: int|
            0 <= j < 9 && j != i ==> #[trigger] solution.code(group[j]) == 1;
    if digit != i {
        assert(solution.code(group[digit]) == 1);
    }
}

/// A store of which a solution knows everything that it knows is coherent:
/// it holds no variable with both truth values.
pub proof fn lemma_part_coherent(solution: Facts, part: Facts)
    requires
        solved(solution),
        forall|lit: int| 0 <= lit < VALUES && #[trigger] part.knows(lit) ==> solution.knows(lit),
    ensures
        crate::sound::coherent(part),
{
    assert forall|var: int| 0 <= var < VARS && #[trigger] part.code(var) == 3 implies false by {
        assert(part.knows(2 * var) && part.knows(2 * var + 1));
        assert(solution.knows(2 * var) && solution.knows(2 * var + 1));
        lemma_solved_code(solution, var);
    }
}

/// To keep the worlds is transitive, and every store keeps its own.
pub proof fn lemma_keeps_chain(first: Facts, second: Facts, third: Facts)
    requires
        keeps(first, second),
        keeps(second, third),
    ensures
        keeps(first, third),
        keeps(first, first),
{
    assert forall|world: Set<int>| obeys(world) && #[trigger] agrees(first, world) implies agrees(
        third,
        world,
    ) by {
        assert(agrees(second, world));
    }
}

/// The decision of a branch leaves the stored clauses faithful: the store
/// has only learned, and the clauses are the same.
pub proof fn lemma_branch_fit(settled: Puzzle, lit: int, branch: Puzzle)
    requires
        settled.facts.wf(),
        fit(settled),
        0 <= lit < VALUES,
        branch == settled.stepped().with_facts(settled.facts.checkpoint().learn(lit)),
    ensures
        fit(branch),
{
    let marked = settled.facts.checkpoint();
    assert forall|j: int| 0 <= j < branch.starts.len() implies (#[trigger] branch.clause(j)).len()
        <= 9 by {
        assert(branch.end(j) == settled.end(j));
        assert(settled.clause(j).len() <= 9);
    }
    assert forall|world: Set<int>| obeys(world) && #[trigger] agrees(
        branch.facts,
        world,
    ) implies entailed(branch, world) by {
        assert forall|x: int| 0 <= x < VALUES && #[trigger] settled.facts.knows(x) implies true_in(
            world,
            x,
        ) by {
            lemma_with_bit(marked.words, lit, x);
            assert(branch.facts.knows(x));
        }
        assert(agrees(settled.facts, world));
        assert(entailed(settled, world));
        assert forall|j: int| 0 <= j < branch.starts.len() implies models(
            world,
            #[trigger] branch.clause(j),
        ) by {
            assert(branch.end(j) == settled.end(j));
            assert(branch.clause(j) == settled.clause(j));
        }
    }
}

/// The two sides of a branch cover every world: where no world agrees with
/// the store after the literal was recorded, and none with the store after
/// its complement was recorded, none agrees with the store before.
pub proof fn lemma_split_unsat(settled: Facts, restored: Facts, lit: int)
    requires
        settled.wf(),
        restored.wf(),
        restored.words == settled.words,
        0 <= lit < VALUES,
        !satisfiable(settled.checkpoint().learn(lit)),
        !satisfiable(restored.learn(complement(lit))),
    ensures
        !satisfiable(settled),
{
    if satisfiable(settled) {
        let world = choose|world: Set<int>| obeys(world) && #[trigger] agrees(settled, world);
        let marked = settled.checkpoint();
        if true_in(world, lit) {
            lemma_agrees_words(settled, marked, world);
            lemma_learn_agrees(marked, lit, world);
            assert(obeys(world) && agrees(marked.learn(lit), world));
        } else {
            assert(complement(lit) / 2 == lit / 2);
            assert(true_in(world, complement(lit)));
            lemma_agrees_words(settled, restored, world);
            lemma_learn_agrees(restored, complement(lit), world);
            assert(obeys(world) && agrees(restored.learn(complement(lit)), world));
        }
    }
}

/// Both sides of a branch have failed: no world agrees with either, so none
/// agrees with the store from which the search came to the branch.
pub proof fn lemma_branch_exhausted(
    before: Facts,
    settled: Facts,
    restored: Facts,
    lit: int,
)
    requires
        keeps(before, settled),
        settled.wf(),
        restored.wf(),
        restored.words == settled.words,
        0 <= lit < VALUES,
        !satisfiable(settled.checkpoint().learn(lit)),
        !satisfiable(restored.learn(complement(lit))),
    ensures
        !satisfiable(before),
{
    lemma_split_unsat(settled, restored, lit);
    lemma_keeps_unsat(before, settled);
}

/// A solution is a world: where a store that extends another holds a
/// solution, a world that obeys the rules agrees with the other.
pub proof fn lemma_solved_satisfiable(solution: Facts, earlier: Facts)
    requires
        solution.wf(),
        earlier.wf(),
        solution.extends(earlier),
        solved(solution),
    ensures
        satisfiable(earlier),
{
    assert forall|lit: int| 0 <= lit < VALUES && #[trigger] earlier.knows(lit)
        implies solution.knows(
        lit,
    ) by {
        lemma_extends_knows(solution, earlier, lit);
    }
    lemma_solved_covers(solution, earlier);
}

/// A solution is a world: it agrees with every store of which it knows
/// everything that the store knows.
pub proof fn lemma_solved_covers(solution: Facts, part: Facts)
    requires
        solved(solution),
        forall|lit: int| 0 <= lit < VALUES && #[trigger] part.knows(lit) ==> solution.knows(lit),
    ensures
        satisfiable(part),
{
    let world = Set::new(|var: int| 0 <= var < VARS && solution.knows(2 * var + 1));
    assert forall|family: Family, k: int| 0 <= k < 81 implies #[trigger] one_in(
        world,
        group_of(family, k),
    ) by {
        let group = group_of(family, k);
        lemma_group_of(family, k);
        assert(one_holds(solution, group));
        let i = choose|i: int|
            0 <= i < 9 && #[trigger] solution.code(group[i]) == 2 && forall|j: int|
                0 <= j < 9 && j != i ==> #[trigger] solution.code(group[j]) == 1;
        assert(0 <= group[i] < VARS);
        assert(world.contains(group[i]));
        assert forall|j: int| 0 <= j < 9 && j != i implies !#[trigger] world.contains(group[j]) by {
            assert(solution.code(group[j]) == 1);
        }
    }
    assert forall|lit: int| 0 <= lit < VALUES && #[trigger] solution.knows(lit) implies true_in(
        world,
        lit,
    ) by {
        let var = lit / 2;
        if lit % 2 == 0 {
            lemma_decode(var);
            let row = crate::groups::row_of(var);
            let column = crate::groups::column_of(var);
            let digit = crate::groups::digit_of(var);
            lemma_member_cell(row, column, digit);
            let group = group_of(Family::Cell, row * 9 + column);
            assert(one_holds(solution, group));
            let i = choose|i: int|
                0 <= i < 9 && #[trigger] solution.code(group[i]) == 2 && forall|j: int|
                    0 <= j < 9 && j != i ==> #[trigger] solution.code(group[j]) == 1;
            if digit != i {
                assert(solution.code(group[digit]) == 1);
            }
            assert(solution.code(var) != 3);
        }
    }
    assert(agrees(solution, world));
    assert(obeys(world) && agrees(part, world));
}

} // verus!
