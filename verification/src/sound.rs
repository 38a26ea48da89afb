//! Why a search that succeeds has found a solution: no variable holds both
//! truth values unless a placement beside it explains it, and every clause of
//! the rules is either settled for good or still carried by a stored clause.
use vstd::prelude::*;
use crate::facts::{bit, lemma_learn, lemma_var_decode, lemma_with_bit, Facts};
use crate::groups::{
    block_group, cell_group, column_group, column_of, digit_of, is_group, literal, row_group,
    row_of, var_at,
};
use crate::groups::complement;
use crate::laws::{blank, lemma_group_of, over_vars};
use crate::puzzle::{
    definedness, group_of, holds, lemma_stopped_define_family, lemma_stopped_separate,
    lemma_stopped_separate_family, lemma_stopped_separate_from, scan,
    uniqueness, unknown, Family, Puzzle, Run,
};
use crate::{UNITS, VALUES, VARS};

verus! {

/// Two different variables that the rules keep from holding together: two
/// digits of one cell, or one digit in two cells of a row, a column or a
/// block.
#[verifier::opaque]
pub open spec fn peers(a: int, b: int) -> bool {
    &&& 0 <= a < VARS
    &&& 0 <= b < VARS
    &&& a != b
    &&& ((row_of(a) == row_of(b) && column_of(a) == column_of(b)) || (digit_of(a) == digit_of(b)
        && (row_of(a) == row_of(b) || column_of(a) == column_of(b) || (row_of(a) / 3 == row_of(b)
        / 3 && column_of(a) / 3 == column_of(b) / 3))))
}

/// Peers are two different variables.
pub proof fn lemma_peers_range(a: int, b: int)
    requires
        peers(a, b),
    ensures
        0 <= a < VARS,
        0 <= b < VARS,
        a != b,
{
    reveal(peers);
}

/// A variable holds both truth values only beside a placement: one of its
/// peers is recorded as true.
pub open spec fn coherent(facts: Facts) -> bool {
    forall|var: int|
        0 <= var < VARS && #[trigger] facts.code(var) == 3 ==> exists|peer: int|
            peers(var, peer) && #[trigger] facts.knows(2 * peer + 1)
}

/// The later store has everything that the earlier has, and no variable that
/// was known to be false and nothing else has since been recorded as true.
pub open spec fn steady(earlier: Facts, later: Facts) -> bool {
    &&& forall|lit: int| 0 <= lit < VALUES && earlier.knows(lit) ==> #[trigger] later.knows(lit)
    &&& forall|var: int| 0 <= var < VARS && earlier.code(var) == 1
        ==> #[trigger] later.code(var) == 1
}

/// The literal is settled for good: a positive literal is recorded as true; a
/// negative literal's variable is known to be false and nothing else.
pub open spec fn firm(facts: Facts, lit: int) -> bool {
    if lit % 2 == 1 {
        facts.knows(lit)
    } else {
        facts.code(lit / 2) == 1
    }
}

/// What a settled literal is stays settled in a store that steadily follows.
pub proof fn lemma_firm_steady(earlier: Facts, later: Facts, lit: int)
    requires
        steady(earlier, later),
        0 <= lit < VALUES,
        firm(earlier, lit),
    ensures
        firm(later, lit),
{
    if lit % 2 == 0 {
        assert(0 <= lit / 2 < VARS);
        assert(later.code(lit / 2) == 1);
    }
}

/// Steadiness is reflexive and transitive.
pub proof fn lemma_steady_chain(first: Facts, second: Facts, third: Facts)
    requires
        steady(first, second),
        steady(second, third),
    ensures
        steady(first, third),
        steady(first, first),
{
    assert forall|lit: int| 0 <= lit < VALUES && first.knows(lit) implies #[trigger] third.knows(
        lit,
    ) by {
        assert(second.knows(lit));
    }
    assert forall|var: int| 0 <= var < VARS && first.code(var) == 1 implies #[trigger] third.code(
        var,
    ) == 1 by {
        assert(second.code(var) == 1);
    }
}

/// What recording a literal does to the code of each variable.
pub proof fn lemma_learn_code(facts: Facts, lit: int, var: int)
    requires
        facts.wf(),
        0 <= lit < VALUES,
        0 <= var < VARS,
    ensures
        var != lit / 2 ==> facts.learn(lit).code(var) == facts.code(var),
        facts.learn(lit).knows(2 * var) == (facts.knows(2 * var) || lit == 2 * var),
        facts.learn(lit).knows(2 * var + 1) == (facts.knows(2 * var + 1) || lit == 2 * var + 1),
{
    lemma_with_bit(facts.words, lit, 2 * var);
    lemma_with_bit(facts.words, lit, 2 * var + 1);
    lemma_with_bit(facts.words, lit, lit);
}

/// Recording a literal of a variable of which nothing is known is steady and
/// keeps the store coherent.
pub proof fn lemma_learn_unknown(facts: Facts, lit: int)
    requires
        facts.wf(),
        0 <= lit < VALUES,
        facts.code(lit / 2) == 0,
    ensures
        steady(facts, facts.learn(lit)),
        coherent(facts) ==> coherent(facts.learn(lit)),
        firm(facts.learn(lit), lit),
{
    let after = facts.learn(lit);
    assert forall|x: int| 0 <= x < VALUES && facts.knows(x) implies #[trigger] after.knows(x) by {
        lemma_with_bit(facts.words, lit, x);
    }
    assert forall|var: int| 0 <= var < VARS implies (var != lit / 2 ==> #[trigger] after.code(var)
        == facts.code(var)) && after.code(lit / 2) != 3 by {
        lemma_learn_code(facts, lit, var);
        lemma_learn_code(facts, lit, lit / 2);
    }
    lemma_learn_code(facts, lit, lit / 2);
    if coherent(facts) {
        assert forall|var: int| 0 <= var < VARS && #[trigger] after.code(var) == 3 implies exists|
            peer: int,
        |
            peers(var, peer) && #[trigger] after.knows(2 * peer + 1) by {
            assert(var != lit / 2);
            assert(facts.code(var) == 3);
            let peer = choose|peer: int| peers(var, peer) && #[trigger] facts.knows(2 * peer + 1);
            lemma_peers_range(var, peer);
            lemma_with_bit(facts.words, lit, 2 * peer + 1);
            assert(after.knows(2 * peer + 1));
        }
    }
}

/// Recording a peer of a placement as false is steady and keeps the store
/// coherent.
pub proof fn lemma_learn_excluded(facts: Facts, var: int, placed: int)
    requires
        facts.wf(),
        peers(var, placed),
        facts.knows(2 * placed + 1),
    ensures
        steady(facts, facts.set(var, false)),
        coherent(facts) ==> coherent(facts.set(var, false)),
        facts.set(var, false).knows(2 * placed + 1),
{
    lemma_peers_range(var, placed);
    let lit = 2 * var;
    let after = facts.learn(lit);
    assert forall|x: int| 0 <= x < VALUES && facts.knows(x) implies #[trigger] after.knows(x) by {
        lemma_with_bit(facts.words, lit, x);
    }
    assert forall|other: int| 0 <= other < VARS && other != var implies #[trigger] after.code(
        other,
    ) == facts.code(other) by {
        lemma_learn_code(facts, lit, other);
    }
    lemma_learn_code(facts, lit, var);
    lemma_with_bit(facts.words, lit, 2 * placed + 1);
    if coherent(facts) {
        assert forall|other: int| 0 <= other < VARS && #[trigger] after.code(other) == 3
            implies exists|
            peer: int,
        |
            peers(other, peer) && #[trigger] after.knows(2 * peer + 1) by {
            if other == var {
                assert(peers(other, placed) && after.knows(2 * placed + 1));
            } else {
                assert(facts.code(other) == 3);
                let peer = choose|peer: int|
                    peers(other, peer) && #[trigger] facts.knows(2 * peer + 1);
                lemma_peers_range(other, peer);
                lemma_with_bit(facts.words, lit, 2 * peer + 1);
                assert(after.knows(2 * peer + 1));
            }
        }
    }
}

/// Excluding the peers of a placement is steady and keeps the store coherent.
pub proof fn lemma_exclude_steady(facts: Facts, group: Seq<int>, keep: int, n: int, placed: int)
    requires
        facts.wf(),
        is_group(group),
        0 <= n <= 9,
        facts.knows(2 * placed + 1),
        forall|i: int| 0 <= i < 9 && i != keep ==> peers(#[trigger] group[i], placed),
    ensures
        facts.exclude(group, keep, n).wf(),
        steady(facts, facts.exclude(group, keep, n)),
        coherent(facts) ==> coherent(facts.exclude(group, keep, n)),
        facts.exclude(group, keep, n).knows(2 * placed + 1),
    decreases n,
{
    if n <= 0 {
        lemma_steady_chain(facts, facts, facts);
    } else {
        lemma_exclude_steady(facts, group, keep, n - 1, placed);
        let before = facts.exclude(group, keep, n - 1);
        if n - 1 != keep {
            assert(peers(group[n - 1], placed));
            lemma_learn_excluded(before, group[n - 1], placed);
            crate::facts::lemma_extends_self(before);
            lemma_learn(before, literal(group[n - 1], false), before);
            lemma_steady_chain(facts, before, before.set(group[n - 1], false));
        }
    }
}

/// The members of the four groups of a variable, but the variable itself, are
/// its peers.
pub proof fn lemma_group_peers(row: int, column: int, value: int)
    requires
        0 <= row < 9,
        0 <= column < 9,
        0 <= value < 9,
    ensures
        forall|i: int|
            0 <= i < 9 && i != row ==> peers(
                #[trigger] column_group(column, value)[i],
                var_at(row, column, value),
            ),
        forall|i: int|
            0 <= i < 9 && i != column ==> peers(
                #[trigger] row_group(row, value)[i],
                var_at(row, column, value),
            ),
        forall|i: int|
            0 <= i < 9 && i != value ==> peers(
                #[trigger] cell_group(row, column)[i],
                var_at(row, column, value),
            ),
        forall|i: int|
            0 <= i < 9 && i != (row % 3) * 3 + column % 3 ==> peers(
                #[trigger] block_group(row - row % 3, column - column % 3, value)[i],
                var_at(row, column, value),
            ),
{
    assert forall|i: int| 0 <= i < 9 && i != row implies peers(
        #[trigger] column_group(column, value)[i],
        var_at(row, column, value),
    ) by {
        lemma_peers_by_place(i, column, value, row, column, value);
    }
    assert forall|i: int| 0 <= i < 9 && i != column implies peers(
        #[trigger] row_group(row, value)[i],
        var_at(row, column, value),
    ) by {
        lemma_peers_by_place(row, i, value, row, column, value);
    }
    assert forall|i: int| 0 <= i < 9 && i != value implies peers(
        #[trigger] cell_group(row, column)[i],
        var_at(row, column, value),
    ) by {
        lemma_peers_by_place(row, column, i, row, column, value);
    }
    assert forall|i: int| 0 <= i < 9 && i != (row % 3) * 3 + column % 3 implies peers(
        #[trigger] block_group(row - row % 3, column - column % 3, value)[i],
        var_at(row, column, value),
    ) by {
        let r = row - row % 3 + i / 3;
        let c = column - column % 3 + i % 3;
        assert(r / 3 == row / 3 && c / 3 == column / 3);
        assert(r != row || c != column);
        lemma_peers_by_place(r, c, value, row, column, value);
    }
}

/// The row, column and digit of a variable are read off its number.
pub proof fn lemma_coordinates(row: int, column: int, value: int)
    requires
        0 <= row < 9,
        0 <= column < 9,
        0 <= value < 9,
    ensures
        0 <= var_at(row, column, value) < VARS,
        row_of(var_at(row, column, value)) == row,
        column_of(var_at(row, column, value)) == column,
        digit_of(var_at(row, column, value)) == value,
{
    reveal(row_of);
    reveal(column_of);
    reveal(digit_of);
    let var = var_at(row, column, value);
    assert(var / 9 == row * 9 + column);
    assert(var / 81 == row);
}

/// A variable is the variable of its row, its column and its digit.
pub proof fn lemma_decode(var: int)
    requires
        0 <= var < VARS,
    ensures
        0 <= row_of(var) < 9,
        0 <= column_of(var) < 9,
        0 <= digit_of(var) < 9,
        var_at(row_of(var), column_of(var), digit_of(var)) == var,
{
    reveal(row_of);
    reveal(column_of);
    reveal(digit_of);
    lemma_var_decode(var);
}

/// Two variables with two different rows, columns or digits are different,
/// and the one beside the other in a cell, a row, a column or a block is its
/// peer.
pub proof fn lemma_peers_by_place(ra: int, ca: int, va: int, rb: int, cb: int, vb: int)
    requires
        0 <= ra < 9 && 0 <= ca < 9 && 0 <= va < 9,
        0 <= rb < 9 && 0 <= cb < 9 && 0 <= vb < 9,
        ra != rb || ca != cb || va != vb,
        (ra == rb && ca == cb) || (va == vb && (ra == rb || ca == cb || (ra / 3 == rb / 3 && ca / 3
            == cb / 3))),
    ensures
        peers(var_at(ra, ca, va), var_at(rb, cb, vb)),
{
    reveal(peers);
    lemma_coordinates(ra, ca, va);
    lemma_coordinates(rb, cb, vb);
}

/// A placement on a variable of which nothing is known is steady and keeps
/// the store coherent.
pub proof fn lemma_assign_steady(facts: Facts, row: int, column: int, value: int)
    requires
        facts.wf(),
        0 <= row < 9,
        0 <= column < 9,
        0 <= value < 9,
        facts.code(var_at(row, column, value)) == 0,
    ensures
        facts.assign(row, column, value).wf(),
        steady(facts, facts.assign(row, column, value)),
        coherent(facts) ==> coherent(facts.assign(row, column, value)),
        facts.assign(row, column, value).knows(2 * var_at(row, column, value) + 1),
{
    reveal(Facts::assign);
    let var = var_at(row, column, value);
    crate::facts::lemma_groups_in_range(row, column, value);
    lemma_group_peers(row, column, value);
    crate::facts::lemma_extends_self(facts);
    lemma_learn(facts, literal(var, true), facts);
    lemma_learn_unknown(facts, 2 * var + 1);
    let s0 = facts.set(var, true);
    lemma_exclude_steady(s0, column_group(column, value), row, 9, var);
    let s1 = s0.exclude(column_group(column, value), row, 9);
    lemma_exclude_steady(s1, row_group(row, value), column, 9, var);
    let s2 = s1.exclude(row_group(row, value), column, 9);
    lemma_exclude_steady(s2, cell_group(row, column), value, 9, var);
    let s3 = s2.exclude(cell_group(row, column), value, 9);
    let block = block_group(row - row % 3, column - column % 3, value);
    lemma_exclude_steady(s3, block, (row % 3) * 3 + column % 3, 9, var);
    let s4 = s3.exclude(block, (row % 3) * 3 + column % 3, 9);
    lemma_steady_chain(facts, s0, s1);
    lemma_steady_chain(facts, s1, s2);
    lemma_steady_chain(facts, s2, s3);
    lemma_steady_chain(facts, s3, s4);
}

/// Forcing a variable of which nothing is known is steady, keeps the store
/// coherent, and settles the forced literal for good.
pub proof fn lemma_force_steady(facts: Facts, var: int, value: bool)
    requires
        facts.wf(),
        0 <= var < VARS,
        facts.code(var) == 0,
    ensures
        facts.force(var, value).wf(),
        steady(facts, facts.force(var, value)),
        coherent(facts) ==> coherent(facts.force(var, value)),
        firm(facts.force(var, value), literal(var, value)),
{
    reveal(Facts::force);
    if value {
        lemma_var_decode(var);
        lemma_assign_steady(facts, var / 81, var / 9 % 9, var % 9);
    } else {
        crate::facts::lemma_extends_self(facts);
        lemma_learn(facts, literal(var, false), facts);
        lemma_learn_unknown(facts, 2 * var);
    }
}

/// One literal of the clause is settled for good.
pub open spec fn settled(facts: Facts, clause: Seq<int>) -> bool {
    exists|a: int| 0 <= a < clause.len() && firm(facts, #[trigger] clause[a])
}

/// Every literal of `inner` is a literal of `outer`.
pub open spec fn within(inner: Seq<int>, outer: Seq<int>) -> bool {
    forall|a: int| 0 <= a < inner.len() ==> outer.contains(#[trigger] inner[a])
}

/// A stored clause has no literal that `clause` lacks, so that it says at
/// least as much.
pub open spec fn carried(puzzle: Puzzle, clause: Seq<int>) -> bool {
    exists|j: int| 0 <= j < puzzle.starts.len() && within(#[trigger] puzzle.clause(j), clause)
}

/// The engine accounts for the clause: it is settled for good, or a stored
/// clause carries it.
pub open spec fn accounts(puzzle: Puzzle, clause: Seq<int>) -> bool {
    settled(puzzle.facts, clause) || carried(puzzle, clause)
}

/// The stored clauses lie within the pool.
pub open spec fn layout(puzzle: Puzzle) -> bool {
    &&& forall|j: int| 0 <= j < puzzle.starts.len() ==> 0 <= #[trigger] puzzle.starts[j]
    &&& forall|j: int|
        0 <= j < puzzle.starts.len() ==> puzzle.starts[j] <= #[trigger] puzzle.end(j)
            && puzzle.end(j) <= puzzle.pool.len()
}

/// The store is well formed and coherent, and the stored clauses lie within
/// the pool.
pub open spec fn sane(puzzle: Puzzle) -> bool {
    &&& puzzle.facts.wf()
    &&& coherent(puzzle.facts)
    &&& layout(puzzle)
}

/// The later engine has steadily learned since the earlier, and still stores
/// every clause that the earlier stored.
pub open spec fn continues(earlier: Puzzle, later: Puzzle) -> bool {
    &&& steady(earlier.facts, later.facts)
    &&& earlier.starts.len() <= later.starts.len()
    &&& forall|j: int|
        0 <= j < earlier.starts.len() ==> #[trigger] later.clause(j) == earlier.clause(j)
}

/// The engine accounts for the clauses of group `k` of `family`.
pub open spec fn ruled(puzzle: Puzzle, family: Family, k: int) -> bool {
    &&& accounts(puzzle, definedness(group_of(family, k)))
    &&& forall|low: int, high: int|
        0 <= low < high < 9 ==> accounts(
            puzzle,
            #[trigger] uniqueness(group_of(family, k), low, high),
        )
}

/// The engine accounts for every clause of the rules.
pub open spec fn complete(puzzle: Puzzle) -> bool {
    forall|family: Family, k: int| 0 <= k < 81 ==> #[trigger] ruled(puzzle, family, k)
}

/// The engine is fit for a search: its store is coherent, and it accounts
/// for every clause of the rules.
pub open spec fn ready(puzzle: Puzzle) -> bool {
    &&& coherent(puzzle.facts)
    &&& complete(puzzle)
}

/// Exactly one member of the group holds: it is known to be true and nothing
/// else, and every other member is known to be false and nothing else.
pub open spec fn one_holds(facts: Facts, group: Seq<int>) -> bool {
    exists|i: int|
        0 <= i < 9 && #[trigger] facts.code(group[i]) == 2 && forall|j: int|
            0 <= j < 9 && j != i ==> #[trigger] facts.code(group[j]) == 1
}

/// The store holds a solution: every cell has exactly one digit, and every
/// row, every column and every block has every digit in exactly one place.
pub open spec fn solved(facts: Facts) -> bool {
    forall|family: Family, k: int| 0 <= k < 81 ==> #[trigger] one_holds(facts, group_of(family, k))
}

/// A later engine that continues an earlier one accounts for what the
/// earlier accounted for.
pub proof fn lemma_continues_accounts(earlier: Puzzle, later: Puzzle, clause: Seq<int>)
    requires
        continues(earlier, later),
        over_vars(clause),
        accounts(earlier, clause),
    ensures
        accounts(later, clause),
{
    if settled(earlier.facts, clause) {
        let a = choose|a: int| 0 <= a < clause.len() && firm(earlier.facts, #[trigger] clause[a]);
        assert(0 <= clause[a] / 2 < VARS);
        lemma_firm_steady(earlier.facts, later.facts, clause[a]);
    } else {
        let j = choose|j: int|
            0 <= j < earlier.starts.len() && within(#[trigger] earlier.clause(j), clause);
        assert(later.clause(j) == earlier.clause(j));
    }
}

/// To continue is transitive, and every engine continues itself.
pub proof fn lemma_continues_chain(first: Puzzle, second: Puzzle, third: Puzzle)
    requires
        continues(first, second),
        continues(second, third),
    ensures
        continues(first, third),
        continues(first, first),
{
    lemma_steady_chain(first.facts, second.facts, third.facts);
    assert forall|j: int| 0 <= j < first.starts.len() implies #[trigger] third.clause(j)
        == first.clause(j) by {
        assert(second.clause(j) == first.clause(j));
    }
}

/// What the examination of a clause finds: where it is satisfied, a literal
/// that holds; and it keeps only literals of the clause of which nothing is
/// known.
pub proof fn lemma_scan_meaning(facts: Facts, clause: Seq<int>, n: int)
    requires
        0 <= n <= clause.len(),
    ensures
        scan(facts, clause, n).satisfied ==> exists|a: int|
            0 <= a < n && holds(facts, #[trigger] clause[a]),
        forall|x: int|
            0 <= x < scan(facts, clause, n).kept.len() ==> unknown(
                facts,
                #[trigger] scan(facts, clause, n).kept[x],
            ) && clause.contains(scan(facts, clause, n).kept[x]),
    decreases n,
{
    if n > 0 {
        lemma_scan_meaning(facts, clause, n - 1);
        let before = scan(facts, clause, n - 1);
        let after = scan(facts, clause, n);
        if before.satisfied {
            let a = choose|a: int| 0 <= a < n - 1 && holds(facts, #[trigger] clause[a]);
            assert(0 <= a < n && holds(facts, clause[a]));
        } else if unknown(facts, clause[n - 1]) {
            assert forall|x: int| 0 <= x < after.kept.len() implies unknown(
                facts,
                #[trigger] after.kept[x],
            ) && clause.contains(after.kept[x]) by {
                if x < before.kept.len() {
                    assert(after.kept[x] == before.kept[x]);
                } else {
                    assert(after.kept[x] == clause[n - 1]);
                }
            }
        } else if holds(facts, clause[n - 1]) {
            assert(0 <= n - 1 < n && holds(facts, clause[n - 1]));
        }
    }
}

/// Where stored clause `j` lies.
pub proof fn lemma_layout_at(puzzle: Puzzle, j: int)
    requires
        layout(puzzle),
        0 <= j < puzzle.starts.len(),
    ensures
        0 <= puzzle.starts[j],
        puzzle.starts[j] <= puzzle.end(j),
        puzzle.end(j) <= puzzle.pool.len(),
{
    assert(puzzle.end(j) <= puzzle.pool.len());
}

/// A literal that holds is settled for good.
pub proof fn lemma_holds_firm(facts: Facts, lit: int)
    requires
        0 <= lit,
        holds(facts, lit),
    ensures
        firm(facts, lit),
{
    if lit % 2 == 1 {
        assert(2 * (lit / 2) + 1 == lit);
    }
}

/// What the submission of a clause does where it ends without a fault: the
/// engine stays sane and continues the one before, and it accounts for every
/// clause that has all the literals of the one submitted.
pub proof fn lemma_insert_sound(puzzle: Puzzle, clause: Seq<int>, target: Seq<int>)
    requires
        sane(puzzle),
        over_vars(clause),
        over_vars(target),
        within(clause, target),
        puzzle.insert(clause).fault is None,
    ensures
        sane(puzzle.insert(clause).puzzle),
        continues(puzzle, puzzle.insert(clause).puzzle),
        accounts(puzzle.insert(clause).puzzle, target),
{
    reveal(Puzzle::insert);
    let facts = puzzle.facts;
    let after = puzzle.insert(clause).puzzle;
    let found = scan(facts, clause, clause.len() as int);
    lemma_scan_meaning(facts, clause, clause.len() as int);
    lemma_steady_chain(facts, facts, facts);
    if found.satisfied {
        let a = choose|a: int| 0 <= a < clause.len() && holds(facts, #[trigger] clause[a]);
        assert(0 <= clause[a] / 2 < VARS);
        lemma_holds_firm(facts, clause[a]);
        assert(target.contains(clause[a]));
        let b = choose|b: int| 0 <= b < target.len() && target[b] == clause[a];
        assert(firm(facts, target[b]));
    } else if found.kept.len() == 1 {
        let lit = found.kept[0];
        assert(unknown(facts, lit) && clause.contains(lit));
        let a = choose|a: int| 0 <= a < clause.len() && clause[a] == lit;
        assert(0 <= clause[a] / 2 < VARS);
        lemma_force_steady(facts, lit / 2, lit % 2 == 1);
        assert(literal(lit / 2, lit % 2 == 1) == lit);
        assert(target.contains(clause[a]));
        let b = choose|b: int| 0 <= b < target.len() && target[b] == lit;
        assert(firm(after.facts, target[b]));
        assert forall|j: int| 0 <= j < puzzle.starts.len() implies #[trigger] after.clause(j)
            == puzzle.clause(j) by {
            assert(after.end(j) == puzzle.end(j));
        }
        assert forall|j: int| 0 <= j < after.starts.len() implies 0 <= after.starts[j]
            && after.starts[j] <= #[trigger] after.end(j) && after.end(j) <= after.pool.len() by {
            assert(after.end(j) == puzzle.end(j));
        }
    } else {
        let last = puzzle.starts.len() as int;
        assert forall|j: int| 0 <= j < after.starts.len()
            implies 0 <= #[trigger] after.starts[j] by {
            if j < last {
                lemma_layout_at(puzzle, j);
            }
        }
        assert forall|j: int| 0 <= j < after.starts.len() implies after.starts[j]
            <= #[trigger] after.end(j) && after.end(j) <= after.pool.len() by {
            if j < last {
                lemma_layout_at(puzzle, j);
            }
        }
        assert forall|j: int| 0 <= j < puzzle.starts.len() implies #[trigger] after.clause(j)
            == puzzle.clause(j) by {
            lemma_layout_at(puzzle, j);
            assert(after.end(j) == puzzle.end(j));
            assert(after.clause(j) =~= puzzle.clause(j));
        }
        assert(after.clause(last) =~= found.kept);
        assert forall|a: int| 0 <= a < found.kept.len() implies target.contains(
            #[trigger] after.clause(last)[a],
        ) by {
            let lit = found.kept[a];
            assert(clause.contains(lit));
            let c = choose|c: int| 0 <= c < clause.len() && clause[c] == lit;
            assert(target.contains(clause[c]));
        }
        assert(within(after.clause(last), target));
    }
}

/// Every clause has all of its own literals.
pub proof fn lemma_within_self(clause: Seq<int>)
    ensures
        within(clause, clause),
{
}

/// The engine accounts for the definedness clause of group `k` of `family`.
pub open spec fn defined(puzzle: Puzzle, family: Family, k: int) -> bool {
    accounts(puzzle, definedness(group_of(family, k)))
}

/// The engine accounts for the uniqueness clauses of group `k` of `family`.
pub open spec fn separated(puzzle: Puzzle, family: Family, k: int) -> bool {
    forall|low: int, high: int|
        0 <= low < high < 9 ==> accounts(
            puzzle,
            #[trigger] uniqueness(group_of(family, k), low, high),
        )
}

/// A later engine that continues an earlier one accounts for the clauses of
/// a group for which the earlier accounted.
pub proof fn lemma_continues_ruled(earlier: Puzzle, later: Puzzle, family: Family, k: int)
    requires
        continues(earlier, later),
        0 <= k < 81,
    ensures
        defined(earlier, family, k) ==> defined(later, family, k),
        separated(earlier, family, k) ==> separated(later, family, k),
{
    lemma_group_of(family, k);
    if defined(earlier, family, k) {
        lemma_continues_accounts(earlier, later, definedness(group_of(family, k)));
    }
    if separated(earlier, family, k) {
        assert forall|low: int, high: int| 0 <= low < high < 9 implies accounts(
            later,
            #[trigger] uniqueness(group_of(family, k), low, high),
        ) by {
            lemma_continues_accounts(earlier, later, uniqueness(group_of(family, k), low, high));
        }
    }
}

/// A run without a fault through the pairs of one member with those before
/// it stays sane, continues where it began, and accounts for those pairs.
pub proof fn lemma_separate_from_sound(run: Run, family: Family, k: int, high: int, n: int,
    low: int)
    requires
        sane(run.puzzle),
        run.fault is None,
        0 <= k < 81,
        0 <= n <= high < 9,
        run.separate_from(group_of(family, k), high, n).fault is None,
    ensures
        sane(run.separate_from(group_of(family, k), high, n).puzzle),
        continues(run.puzzle, run.separate_from(group_of(family, k), high, n).puzzle),
        0 <= low < n ==> accounts(
            run.separate_from(group_of(family, k), high, n).puzzle,
            uniqueness(group_of(family, k), low, high),
        ),
    decreases n,
{
    let group = group_of(family, k);
    if n <= 0 {
        lemma_steady_chain(run.puzzle.facts, run.puzzle.facts, run.puzzle.facts);
    } else {
        let before = run.separate_from(group, high, n - 1);
        let after = run.separate_from(group, high, n);
        let clause = uniqueness(group, n - 1, high);
        lemma_group_of(family, k);
        lemma_separate_from_sound(run, family, k, high, n - 1, low);
        lemma_within_self(clause);
        lemma_insert_sound(before.puzzle, clause, clause);
        lemma_continues_chain(run.puzzle, before.puzzle, after.puzzle);
        if 0 <= low < n - 1 {
            lemma_continues_accounts(before.puzzle, after.puzzle, uniqueness(group, low, high));
        }
    }
}

/// A run without a fault through the pairs among the first members of a
/// group stays sane, continues where it began, and accounts for those pairs.
pub proof fn lemma_separate_sound(run: Run, family: Family, k: int, n: int, low: int, high: int)
    requires
        sane(run.puzzle),
        run.fault is None,
        0 <= k < 81,
        0 <= n <= 9,
        run.separate(group_of(family, k), n).fault is None,
    ensures
        sane(run.separate(group_of(family, k), n).puzzle),
        continues(run.puzzle, run.separate(group_of(family, k), n).puzzle),
        0 <= low < high < n ==> accounts(
            run.separate(group_of(family, k), n).puzzle,
            uniqueness(group_of(family, k), low, high),
        ),
    decreases n,
{
    let group = group_of(family, k);
    if n <= 0 {
        lemma_steady_chain(run.puzzle.facts, run.puzzle.facts, run.puzzle.facts);
    } else {
        let before = run.separate(group, n - 1);
        let after = run.separate(group, n);
        if before.fault is Some {
            lemma_stopped_separate_from(before, group, n - 1, 0, n - 1);
        }
        lemma_group_of(family, k);
        lemma_separate_sound(run, family, k, n - 1, low, high);
        lemma_separate_from_sound(before, family, k, n - 1, n - 1, low);
        lemma_continues_chain(run.puzzle, before.puzzle, after.puzzle);
        if 0 <= low < high < n - 1 {
            lemma_continues_accounts(before.puzzle, after.puzzle, uniqueness(group, low, high));
        }
    }
}

/// A run without a fault through the definedness clauses of a family stays
/// sane and continues where it began; it accounts for the definedness clause
/// of a group of that family, and still accounts for the clauses of any group
/// for which it accounted before.
pub proof fn lemma_define_family_sound(run: Run, stage: Family, n: int, family: Family, k: int)
    requires
        sane(run.puzzle),
        run.fault is None,
        0 <= n <= 81,
        0 <= k < 81,
        run.define_family(stage, n).fault is None,
    ensures
        sane(run.define_family(stage, n).puzzle),
        continues(run.puzzle, run.define_family(stage, n).puzzle),
        (stage == family && k < n) || defined(run.puzzle, family, k) ==> defined(
            run.define_family(stage, n).puzzle,
            family,
            k,
        ),
        separated(run.puzzle, family, k) ==> separated(
            run.define_family(stage, n).puzzle,
            family,
            k,
        ),
    decreases n,
{
    if n <= 0 {
        lemma_steady_chain(run.puzzle.facts, run.puzzle.facts, run.puzzle.facts);
    } else {
        let before = run.define_family(stage, n - 1);
        let after = run.define_family(stage, n);
        let clause = definedness(group_of(stage, n - 1));
        lemma_group_of(stage, n - 1);
        lemma_define_family_sound(run, stage, n - 1, family, k);
        lemma_within_self(clause);
        lemma_insert_sound(before.puzzle, clause, clause);
        lemma_continues_chain(run.puzzle, before.puzzle, after.puzzle);
        lemma_continues_ruled(before.puzzle, after.puzzle, family, k);
    }
}

/// A run without a fault through the uniqueness clauses of a family stays
/// sane and continues where it began; it accounts for the uniqueness clauses
/// of a group of that family, and still accounts for the clauses of any group
/// for which it accounted before.
pub proof fn lemma_separate_family_sound(run: Run, stage: Family, n: int, family: Family, k: int)
    requires
        sane(run.puzzle),
        run.fault is None,
        0 <= n <= 81,
        0 <= k < 81,
        run.separate_family(stage, n).fault is None,
    ensures
        sane(run.separate_family(stage, n).puzzle),
        continues(run.puzzle, run.separate_family(stage, n).puzzle),
        defined(run.puzzle, family, k) ==> defined(
            run.separate_family(stage, n).puzzle,
            family,
            k,
        ),
        (stage == family && k < n) || separated(run.puzzle, family, k) ==> separated(
            run.separate_family(stage, n).puzzle,
            family,
            k,
        ),
    decreases n,
{
    if n <= 0 {
        lemma_steady_chain(run.puzzle.facts, run.puzzle.facts, run.puzzle.facts);
    } else {
        let before = run.separate_family(stage, n - 1);
        let after = run.separate_family(stage, n);
        let group = group_of(stage, n - 1);
        if before.fault is Some {
            lemma_stopped_separate(before, group, 0, 9);
        }
        lemma_separate_family_sound(run, stage, n - 1, family, k);
        lemma_separate_sound(before, stage, n - 1, 9, 0, 0);
        lemma_continues_chain(run.puzzle, before.puzzle, after.puzzle);
        lemma_continues_ruled(before.puzzle, after.puzzle, family, k);
        if stage == family && k == n - 1 {
            assert forall|low: int, high: int| 0 <= low < high < 9 implies accounts(
                after.puzzle,
                #[trigger] uniqueness(group, low, high),
            ) by {
                lemma_separate_sound(before, stage, n - 1, 9, low, high);
            }
        }
    }
}

/// A generation without a fault, from a store that is coherent, ends sane
/// and has steadily learned; it accounts for every clause of the rules.
pub proof fn lemma_generate_sound(puzzle: Puzzle, family: Family, k: int)
    requires
        puzzle.facts.wf(),
        coherent(puzzle.facts),
        puzzle.generate().fault is None,
        0 <= k < 81,
    ensures
        sane(puzzle.generate().puzzle),
        steady(puzzle.facts, puzzle.generate().puzzle.facts),
        defined(puzzle.generate().puzzle, family, k),
        separated(puzzle.generate().puzzle, family, k),
{
    reveal(Puzzle::generate);
    let start = puzzle.cleared();
    lemma_same_words_coherent(puzzle.facts, start.facts);
    let s0 = Run::ok(start);
    let s1 = s0.define_family(Family::Cell, 81);
    let s2 = s1.define_family(Family::Row, 81);
    let s3 = s2.define_family(Family::Column, 81);
    let s4 = s3.define_family(Family::Block, 81);
    let s5 = s4.separate_family(Family::Cell, 81);
    let s6 = s5.separate_family(Family::Row, 81);
    let s7 = s6.separate_family(Family::Column, 81);
    let s8 = s7.separate_family(Family::Block, 81);
    if s7.fault is Some {
        lemma_stopped_separate_family(s7, Family::Block, 0, 81);
    }
    if s6.fault is Some {
        lemma_stopped_separate_family(s6, Family::Column, 0, 81);
    }
    if s5.fault is Some {
        lemma_stopped_separate_family(s5, Family::Row, 0, 81);
    }
    if s4.fault is Some {
        lemma_stopped_separate_family(s4, Family::Cell, 0, 81);
    }
    if s3.fault is Some {
        lemma_stopped_define_family(s3, Family::Block, 0, 81);
    }
    if s2.fault is Some {
        lemma_stopped_define_family(s2, Family::Column, 0, 81);
    }
    if s1.fault is Some {
        lemma_stopped_define_family(s1, Family::Row, 0, 81);
    }
    lemma_define_family_sound(s0, Family::Cell, 81, family, k);
    lemma_define_family_sound(s1, Family::Row, 81, family, k);
    lemma_define_family_sound(s2, Family::Column, 81, family, k);
    lemma_define_family_sound(s3, Family::Block, 81, family, k);
    assert(defined(s4.puzzle, family, k));
    lemma_separate_family_sound(s4, Family::Cell, 81, family, k);
    lemma_separate_family_sound(s5, Family::Row, 81, family, k);
    lemma_separate_family_sound(s6, Family::Column, 81, family, k);
    lemma_separate_family_sound(s7, Family::Block, 81, family, k);
    lemma_steady_chain(puzzle.facts, start.facts, s1.puzzle.facts);
    lemma_steady_chain(puzzle.facts, s1.puzzle.facts, s2.puzzle.facts);
    lemma_steady_chain(puzzle.facts, s2.puzzle.facts, s3.puzzle.facts);
    lemma_steady_chain(puzzle.facts, s3.puzzle.facts, s4.puzzle.facts);
    lemma_steady_chain(puzzle.facts, s4.puzzle.facts, s5.puzzle.facts);
    lemma_steady_chain(puzzle.facts, s5.puzzle.facts, s6.puzzle.facts);
    lemma_steady_chain(puzzle.facts, s6.puzzle.facts, s7.puzzle.facts);
    lemma_steady_chain(puzzle.facts, s7.puzzle.facts, s8.puzzle.facts);
}

/// A run without a fault through the stored clauses of `source` stays sane
/// and continues where it began; it accounts for every clause that has all
/// the literals of one of the clauses submitted.
pub proof fn lemma_resubmit_sound(run: Run, source: Puzzle, n: int, j: int, target: Seq<int>)
    requires
        sane(run.puzzle),
        run.fault is None,
        source.wf(),
        0 <= n <= source.starts.len(),
        run.resubmit(source, n).fault is None,
        over_vars(target),
    ensures
        sane(run.resubmit(source, n).puzzle),
        continues(run.puzzle, run.resubmit(source, n).puzzle),
        0 <= j < n && within(source.clause(j), target) ==> accounts(
            run.resubmit(source, n).puzzle,
            target,
        ),
    decreases n,
{
    if n <= 0 {
        lemma_steady_chain(run.puzzle.facts, run.puzzle.facts, run.puzzle.facts);
    } else {
        let before = run.resubmit(source, n - 1);
        let after = run.resubmit(source, n);
        let clause = source.clause(n - 1);
        lemma_resubmit_sound(run, source, n - 1, j, target);
        assert(source.starts[n - 1] + 2 <= source.end(n - 1) <= source.pool.len());
        assert(over_vars(clause)) by {
            assert forall|i: int| 0 <= i < clause.len() implies 0 <= #[trigger] (clause[i] / 2)
                < VARS by {
                assert(clause[i] == source.pool[source.starts[n - 1] + i]);
            }
        }
        if j == n - 1 && within(clause, target) {
            lemma_insert_sound(before.puzzle, clause, target);
        } else {
            lemma_within_self(clause);
            lemma_insert_sound(before.puzzle, clause, clause);
        }
        lemma_continues_chain(run.puzzle, before.puzzle, after.puzzle);
        if 0 <= j < n - 1 && within(source.clause(j), target) {
            lemma_continues_accounts(before.puzzle, after.puzzle, target);
        }
    }
}

/// A reduction without a fault, of an engine whose store is coherent, ends
/// sane and has steadily learned; it accounts for every clause for which the
/// engine accounted before.
pub proof fn lemma_reduce_sound(puzzle: Puzzle, target: Seq<int>)
    requires
        puzzle.wf(),
        coherent(puzzle.facts),
        puzzle.reduce().fault is None,
        over_vars(target),
    ensures
        sane(puzzle.reduce().puzzle),
        steady(puzzle.facts, puzzle.reduce().puzzle.facts),
        accounts(puzzle, target) ==> accounts(puzzle.reduce().puzzle, target),
{
    reveal(Puzzle::reduce);
    let start = puzzle.cleared();
    let after = puzzle.reduce().puzzle;
    lemma_same_words_coherent(puzzle.facts, start.facts);
    let len = puzzle.starts.len() as int;
    if accounts(puzzle, target) {
        if settled(puzzle.facts, target) {
            lemma_resubmit_sound(Run::ok(start), puzzle, len, 0, target);
            let a = choose|a: int|
                0 <= a < target.len() && firm(puzzle.facts, #[trigger] target[a]);
            assert(0 <= target[a] / 2 < VARS);
            lemma_steady_chain(puzzle.facts, start.facts, after.facts);
            lemma_firm_steady(puzzle.facts, after.facts, target[a]);
        } else {
            let j = choose|j: int|
                0 <= j < puzzle.starts.len() && within(#[trigger] puzzle.clause(j), target);
            lemma_resubmit_sound(Run::ok(start), puzzle, len, j, target);
        }
    } else {
        lemma_resubmit_sound(Run::ok(start), puzzle, len, 0, target);
    }
    lemma_steady_chain(puzzle.facts, start.facts, after.facts);
}

/// A later engine that continues one that is fit for a search, and whose
/// store is coherent, is fit for a search.
pub proof fn lemma_continues_ready(earlier: Puzzle, later: Puzzle)
    requires
        ready(earlier),
        continues(earlier, later),
        coherent(later.facts),
    ensures
        ready(later),
{
    assert forall|family: Family, k: int| 0 <= k < 81
        implies #[trigger] ruled(later, family, k) by {
        assert(ruled(earlier, family, k));
        lemma_continues_ruled(earlier, later, family, k);
    }
}

/// A reduction without a fault leaves an engine that is fit for a search fit
/// for a search.
pub proof fn lemma_reduce_ready(puzzle: Puzzle)
    requires
        puzzle.wf(),
        ready(puzzle),
        puzzle.reduce().fault is None,
    ensures
        ready(puzzle.reduce().puzzle),
{
    let after = puzzle.reduce().puzzle;
    lemma_reduce_sound(puzzle, Seq::empty());
    assert forall|family: Family, k: int| 0 <= k < 81
        implies #[trigger] ruled(after, family, k) by {
        assert(ruled(puzzle, family, k));
        lemma_group_of(family, k);
        lemma_reduce_sound(puzzle, definedness(group_of(family, k)));
        assert forall|low: int, high: int| 0 <= low < high < 9 implies accounts(
            after,
            #[trigger] uniqueness(group_of(family, k), low, high),
        ) by {
            lemma_reduce_sound(puzzle, uniqueness(group_of(family, k), low, high));
        }
    }
}

/// A generation without a fault, from a store that is coherent, leaves the
/// engine fit for a search.
pub proof fn lemma_generate_ready(puzzle: Puzzle)
    requires
        puzzle.facts.wf(),
        coherent(puzzle.facts),
        puzzle.generate().fault is None,
    ensures
        ready(puzzle.generate().puzzle),
        steady(puzzle.facts, puzzle.generate().puzzle.facts),
{
    let after = puzzle.generate().puzzle;
    lemma_generate_sound(puzzle, Family::Cell, 0);
    assert forall|family: Family, k: int| 0 <= k < 81
        implies #[trigger] ruled(after, family, k) by {
        lemma_generate_sound(puzzle, family, k);
    }
}

/// The variable of a row, a column and a digit is a member of the group of
/// its cell.
pub proof fn lemma_member_cell(row: int, column: int, value: int)
    requires
        0 <= row < 9,
        0 <= column < 9,
        0 <= value < 9,
    ensures
        group_of(Family::Cell, row * 9 + column)[value] == var_at(row, column, value),
{
    reveal(group_of);
    let k = row * 9 + column;
    assert(k / 9 == row && k % 9 == column);
}

/// The variable of a row, a column and a digit is a member of the group of
/// its row and digit.
pub proof fn lemma_member_row(row: int, column: int, value: int)
    requires
        0 <= row < 9,
        0 <= column < 9,
        0 <= value < 9,
    ensures
        group_of(Family::Row, row * 9 + value)[column] == var_at(row, column, value),
{
    reveal(group_of);
    let k = row * 9 + value;
    assert(k / 9 == row && k % 9 == value);
}

/// The variable of a row, a column and a digit is a member of the group of
/// its column and digit.
pub proof fn lemma_member_column(row: int, column: int, value: int)
    requires
        0 <= row < 9,
        0 <= column < 9,
        0 <= value < 9,
    ensures
        group_of(Family::Column, column * 9 + value)[row] == var_at(row, column, value),
{
    reveal(group_of);
    let k = column * 9 + value;
    assert(k / 9 == column && k % 9 == value);
}

/// The variable of a row, a column and a digit is a member of the group of
/// its block and digit.
pub proof fn lemma_member_block(row: int, column: int, value: int)
    requires
        0 <= row < 9,
        0 <= column < 9,
        0 <= value < 9,
    ensures
        group_of(Family::Block, (row / 3) * 27 + (column / 3) * 9 + value)[(row % 3) * 3 + column
            % 3] == var_at(row, column, value),
{
    reveal(group_of);
    let top = row / 3;
    let left = column / 3;
    let down = row % 3;
    let right = column % 3;
    let k = top * 27 + left * 9 + value;
    let offset = down * 3 + right;
    assert(0 <= top < 3 && 0 <= left < 3 && 0 <= down < 3 && 0 <= right < 3);
    assert(row == 3 * top + down && column == 3 * left + right);
    assert(k / 27 == top) by {
        assert(k == 27 * top + (left * 9 + value) && 0 <= left * 9 + value < 27);
    }
    assert(k % 9 == value && k / 9 == top * 3 + left) by {
        assert(k == 9 * (top * 3 + left) + value);
    }
    assert((top * 3 + left) % 3 == left);
    assert(offset / 3 == down && offset % 3 == right);
    assert(group_of(Family::Block, k) == block_group(3 * top, 3 * left, value));
    assert(block_group(3 * top, 3 * left, value)[offset] == var_at(
        3 * top + offset / 3,
        3 * left + offset % 3,
        value,
    ));
}

/// The variable of a row, a column and a digit is a member of one group of
/// each family.
pub proof fn lemma_group_members(row: int, column: int, value: int)
    requires
        0 <= row < 9,
        0 <= column < 9,
        0 <= value < 9,
    ensures
        group_of(Family::Cell, row * 9 + column)[value] == var_at(row, column, value),
        group_of(Family::Row, row * 9 + value)[column] == var_at(row, column, value),
        group_of(Family::Column, column * 9 + value)[row] == var_at(row, column, value),
        group_of(Family::Block, (row / 3) * 27 + (column / 3) * 9 + value)[(row % 3) * 3 + column
            % 3] == var_at(row, column, value),
{
    lemma_member_cell(row, column, value);
    lemma_member_row(row, column, value);
    lemma_member_column(row, column, value);
    lemma_member_block(row, column, value);
}

/// What makes two variables peers, by row, column and digit.
pub proof fn lemma_peers_places(a: int, b: int)
    requires
        peers(a, b),
    ensures
        0 <= a < VARS,
        0 <= b < VARS,
        (row_of(a) == row_of(b) && column_of(a) == column_of(b) && digit_of(a) != digit_of(b)) || (
        digit_of(a) == digit_of(b) && row_of(a) == row_of(b) && column_of(a) != column_of(b)) || (
        digit_of(a) == digit_of(b) && column_of(a) == column_of(b) && row_of(a) != row_of(b)) || (
        digit_of(a) == digit_of(b) && row_of(a) / 3 == row_of(b) / 3 && column_of(a) / 3
            == column_of(b) / 3 && ((row_of(a) % 3) * 3 + column_of(a) % 3 != (row_of(b) % 3) * 3
            + column_of(b) % 3)),
{
    reveal(peers);
    lemma_decode(a);
    lemma_decode(b);
    let ra = row_of(a);
    let ca = column_of(a);
    let rb = row_of(b);
    let cb = column_of(b);
    if digit_of(a) == digit_of(b) && ra / 3 == rb / 3 && ca / 3 == cb / 3 && (ra % 3) * 3 + ca % 3
        == (rb % 3) * 3 + cb % 3 {
        assert(ra % 3 == rb % 3 && ca % 3 == cb % 3);
        assert(ra == rb && ca == cb);
    }
}

/// Two peers are two members of one group: the result names the family, the
/// group, and the places of the two in it, the lower first.
pub proof fn lemma_peers_pair(a: int, b: int) -> (r: (Family, int, int, int))
    requires
        peers(a, b),
    ensures
        0 <= r.1 < 81,
        0 <= r.2 < r.3 < 9,
        (group_of(r.0, r.1)[r.2] == a && group_of(r.0, r.1)[r.3] == b) || (group_of(r.0, r.1)[r.2]
            == b && group_of(r.0, r.1)[r.3] == a),
{
    let ra = row_of(a);
    let ca = column_of(a);
    let va = digit_of(a);
    let rb = row_of(b);
    let cb = column_of(b);
    let vb = digit_of(b);
    lemma_peers_places(a, b);
    lemma_decode(a);
    lemma_decode(b);
    lemma_group_members(ra, ca, va);
    lemma_group_members(rb, cb, vb);
    if ra == rb && ca == cb {
        lemma_pick(Family::Cell, ra * 9 + ca, va, vb, a, b)
    } else if ra == rb {
        lemma_pick(Family::Row, ra * 9 + va, ca, cb, a, b)
    } else if ca == cb {
        lemma_pick(Family::Column, ca * 9 + va, ra, rb, a, b)
    } else {
        lemma_pick(
            Family::Block,
            (ra / 3) * 27 + (ca / 3) * 9 + va,
            (ra % 3) * 3 + ca % 3,
            (rb % 3) * 3 + cb % 3,
            a,
            b,
        )
    }
}

/// Two members of a group, the lower place first.
pub proof fn lemma_pick(family: Family, k: int, i: int, j: int, a: int, b: int) -> (r: (
    Family,
    int,
    int,
    int,
))
    requires
        0 <= k < 81,
        0 <= i < 9,
        0 <= j < 9,
        i != j,
        group_of(family, k)[i] == a,
        group_of(family, k)[j] == b,
    ensures
        r.0 == family,
        r.1 == k,
        0 <= r.2 < r.3 < 9,
        (group_of(r.0, r.1)[r.2] == a && group_of(r.0, r.1)[r.3] == b) || (group_of(r.0, r.1)[r.2]
            == b && group_of(r.0, r.1)[r.3] == a),
{
    if i < j {
        (family, k, i, j)
    } else {
        (family, k, j, i)
    }
}

/// Where the engine accounts for the clauses of a group and stores no clause,
/// a member of the group is recorded as true, and of every two members one is
/// known to be false and nothing else.
pub proof fn lemma_ruled_settled(puzzle: Puzzle, family: Family, k: int, low: int, high: int) -> (i:
    int)
    requires
        ruled(puzzle, family, k),
        puzzle.starts.len() == 0,
        0 <= k < 81,
        0 <= low < high < 9,
    ensures
        0 <= i < 9,
        puzzle.facts.knows(2 * group_of(family, k)[i] + 1),
        puzzle.facts.code(group_of(family, k)[low]) == 1 || puzzle.facts.code(
            group_of(family, k)[high],
        ) == 1,
{
    let facts = puzzle.facts;
    let group = group_of(family, k);
    let pair = uniqueness(group, low, high);
    lemma_group_of(family, k);
    assert(accounts(puzzle, pair));
    assert(settled(facts, pair));
    let a = choose|a: int| 0 <= a < pair.len() && firm(facts, #[trigger] pair[a]);
    assert(pair[0] == 2 * group[low] && pair[1] == 2 * group[high]);
    assert(firm(facts, pair[a]));
    let clause = definedness(group);
    assert(accounts(puzzle, clause));
    assert(settled(facts, clause));
    let i = choose|i: int| 0 <= i < clause.len() && firm(facts, #[trigger] clause[i]);
    assert(clause[i] == 2 * group[i] + 1);
    i
}

/// Where the engine is fit for a search and stores no clause, no variable
/// holds both truth values.
pub proof fn lemma_no_conflict(puzzle: Puzzle, var: int)
    requires
        ready(puzzle),
        puzzle.starts.len() == 0,
        0 <= var < VARS,
    ensures
        puzzle.facts.code(var) != 3,
{
    let facts = puzzle.facts;
    if facts.code(var) == 3 {
        let peer = choose|peer: int| peers(var, peer) && #[trigger] facts.knows(2 * peer + 1);
        let (family, k, low, high) = lemma_peers_pair(var, peer);
        assert(ruled(puzzle, family, k));
        let i = lemma_ruled_settled(puzzle, family, k, low, high);
    }
}

/// Soundness of the search: where the engine is fit for a search and stores
/// no clause, the store holds a solution.
pub proof fn lemma_ready_solved(puzzle: Puzzle)
    requires
        ready(puzzle),
        puzzle.starts.len() == 0,
    ensures
        solved(puzzle.facts),
{
    let facts = puzzle.facts;
    assert forall|family: Family, k: int| 0 <= k < 81 implies #[trigger] one_holds(
        facts,
        group_of(family, k),
    ) by {
        let group = group_of(family, k);
        lemma_group_of(family, k);
        assert(ruled(puzzle, family, k));
        let i = lemma_ruled_settled(puzzle, family, k, 0, 1);
        assert(0 <= group[i] < VARS);
        lemma_no_conflict(puzzle, group[i]);
        assert(facts.code(group[i]) == 2);
        assert forall|j: int| 0 <= j < 9 && j != i implies #[trigger] facts.code(group[j]) == 1 by {
            if i < j {
                let other = lemma_ruled_settled(puzzle, family, k, i, j);
            } else {
                let other = lemma_ruled_settled(puzzle, family, k, j, i);
            }
        }
    }
}

/// Whether a store is coherent is a matter of its packed words alone.
pub proof fn lemma_same_words_coherent(first: Facts, second: Facts)
    requires
        first.words == second.words,
        coherent(first),
    ensures
        coherent(second),
        steady(first, second),
{
    assert forall|var: int| 0 <= var < VARS && #[trigger] second.code(var) == 3 implies exists|
        peer: int,
    |
        peers(var, peer) && #[trigger] second.knows(2 * peer + 1) by {
        assert(first.code(var) == 3);
        let peer = choose|peer: int| peers(var, peer) && #[trigger] first.knows(2 * peer + 1);
        assert(second.knows(2 * peer + 1));
    }
    assert forall|var: int| 0 <= var < VARS && first.code(var) == 1 implies #[trigger] second.code(
        var,
    ) == 1 by {
    }
}

/// A store in which nothing is known is coherent, and the empty store is
/// such a store.
pub proof fn lemma_blank_coherent(facts: Facts)
    ensures
        blank(facts) ==> coherent(facts),
        blank(Facts::empty()),
        Facts::empty().wf(),
{
    let empty = Facts::empty();
    assert forall|lit: int| 0 <= lit < 32 * UNITS implies !#[trigger] bit(empty.words, lit) by {
        crate::facts::lemma_word_bits(0u32, 0u32, (lit % 32) as u32);
    }
    assert forall|var: int| 0 <= var < VARS implies #[trigger] empty.code(var) == 0 by {
        assert(!bit(empty.words, 2 * var));
        assert(!bit(empty.words, 2 * var + 1));
    }
}

/// A placement at the boundary, on a variable of which nothing is known,
/// keeps the store coherent. It never takes knowledge away, and the number
/// of variables of which something is known grows by at least one.
pub proof fn lemma_clue(facts: Facts, var: int)
    requires
        facts.wf(),
        0 <= var < VARS,
        facts.code(var) == 0,
    ensures
        coherent(facts) ==> coherent(facts.force(var, true)),
        facts.known_vars().subset_of(facts.force(var, true).known_vars()),
        facts.known_vars().len() + 1 <= facts.force(var, true).known_vars().len(),
{
    reveal(Facts::force);
    lemma_force_steady(facts, var, true);
    lemma_var_decode(var);
    crate::facts::lemma_assign_monotone(facts, var / 81, var / 9 % 9, var % 9);
}

/// The decision of a branch leaves the engine fit for a search: the literal
/// drawn is recorded in a store that knew nothing of its variable.
pub proof fn lemma_branch_ready(settled: Puzzle, lit: int, branch: Puzzle)
    requires
        settled.facts.wf(),
        ready(settled),
        0 <= lit < VALUES,
        unknown(settled.facts, lit),
        branch == settled.stepped().with_facts(settled.facts.checkpoint().learn(lit)),
    ensures
        ready(branch),
{
    let marked = settled.facts.checkpoint();
    lemma_same_words_coherent(settled.facts, marked);
    assert(marked.code(lit / 2) == 0);
    lemma_learn_unknown(marked, lit);
    lemma_steady_chain(settled.facts, marked, branch.facts);
    assert forall|j: int| 0 <= j < settled.starts.len() implies #[trigger] branch.clause(j)
        == settled.clause(j) by {
        assert(branch.end(j) == settled.end(j));
    }
    lemma_continues_ready(settled, branch);
}

/// The other side of a branch leaves the engine fit for a search: after the
/// rollback to a store that was coherent and knew nothing of the variable,
/// the complement of the literal is recorded and the clauses are generated
/// anew.
pub proof fn lemma_turn_ready(settled: Facts, restored: Facts, lit: int, turned: Puzzle)
    requires
        coherent(settled),
        restored.wf(),
        restored.words == settled.words,
        0 <= lit < VALUES,
        unknown(settled, lit),
        turned.facts == restored.learn(complement(lit)),
        turned.generate().fault is None,
    ensures
        ready(turned.generate().puzzle),
{
    lemma_same_words_coherent(settled, restored);
    assert(restored.code(lit / 2) == 0);
    assert(complement(lit) / 2 == lit / 2);
    lemma_learn_unknown(restored, complement(lit));
    crate::facts::lemma_extends_self(restored);
    lemma_learn(restored, complement(lit), restored);
    lemma_generate_ready(turned);
}

/// A solution stays a solution in a store with the same packed words.
pub proof fn lemma_same_words_solved(first: Facts, second: Facts)
    requires
        first.words == second.words,
        solved(first),
    ensures
        solved(second),
{
    assert forall|family: Family, k: int| 0 <= k < 81 implies #[trigger] one_holds(
        second,
        group_of(family, k),
    ) by {
        let group = group_of(family, k);
        assert(one_holds(first, group));
        let i = choose|i: int|
            0 <= i < 9 && #[trigger] first.code(group[i]) == 2 && forall|j: int|
                0 <= j < 9 && j != i ==> #[trigger] first.code(group[j]) == 1;
        assert(second.code(group[i]) == 2);
        assert forall|j: int| 0 <= j < 9 && j != i
            implies #[trigger] second.code(group[j]) == 1 by {
            assert(first.code(group[j]) == 1);
        }
    }
}

} // verus!
