//! What holds of the clause store: at a fixpoint of propagation, and after a
//! generation from a store in which nothing is known.
use vstd::prelude::*;
use crate::facts::{lemma_groups_in_range, Facts};
use crate::groups::is_group;
use crate::puzzle::{
    definedness, group_of, pairs_among, scan, uniqueness, unknown, Family, Puzzle, Run, Scan,
};
use crate::sound::{layout, lemma_layout_at, lemma_scan_meaning, within};
use crate::{CLAUSES, LITERALS, VARS};

verus! {

/// At a fixpoint of propagation, where no new facts are pending, the stored
/// clauses are sound: each has at least two literals, and nothing is known of
/// the variable of any of them, so that none is known to be false.
pub proof fn lemma_fixpoint_clauses(puzzle: Puzzle, i: int, j: int)
    requires
        puzzle.wf(),
        !puzzle.facts.pending,
        0 <= i < puzzle.starts.len(),
        0 <= j < puzzle.clause(i).len(),
    ensures
        puzzle.clause(i).len() >= 2,
        unknown(puzzle.facts, puzzle.clause(i)[j]),
        puzzle.facts.code(puzzle.clause(i)[j] / 2) != 1,
{
    assert(puzzle.starts[i] + 2 <= puzzle.end(i) <= puzzle.pool.len());
    assert(puzzle.clause(i)[j] == puzzle.pool[puzzle.starts[i] + j]);
}

/// Nothing is known of any variable.
pub open spec fn blank(facts: Facts) -> bool {
    forall|var: int| 0 <= var < VARS ==> #[trigger] facts.code(var) == 0
}

/// Every literal of the clause is a literal of a variable.
pub open spec fn over_vars(clause: Seq<int>) -> bool {
    forall|i: int| 0 <= i < clause.len() ==> 0 <= #[trigger] (clause[i] / 2) < VARS
}

/// Each of the 81 groups of a family is a group of nine variables.
pub proof fn lemma_group_of(family: Family, k: int)
    requires
        0 <= k < 81,
    ensures
        is_group(group_of(family, k)),
        over_vars(definedness(group_of(family, k))),
        definedness(group_of(family, k)).len() == 9,
        forall|low: int, high: int|
            0 <= low < 9 && 0 <= high < 9 ==> over_vars(
                #[trigger] uniqueness(group_of(family, k), low, high),
            ),
{
    reveal(group_of);
    let group = group_of(family, k);
    match family {
        Family::Cell => lemma_groups_in_range(k / 9, k % 9, 0),
        Family::Row => lemma_groups_in_range(k / 9, 0, k % 9),
        Family::Column => lemma_groups_in_range(0, k / 9, k % 9),
        Family::Block => lemma_groups_in_range(3 * (k / 27), 3 * (k / 9 % 3), k % 9),
    }
    assert(is_group(group));
    assert forall|i: int| 0 <= i < 9 implies 0 <= #[trigger] (definedness(group)[i] / 2) < VARS by {
        assert(0 <= group[i] < VARS);
    }
    assert forall|low: int, high: int| 0 <= low < 9 && 0 <= high < 9 implies over_vars(
        #[trigger] uniqueness(group, low, high),
    ) by {
        let clause = uniqueness(group, low, high);
        assert(0 <= group[low] < VARS);
        assert(0 <= group[high] < VARS);
        assert forall|i: int| 0 <= i < clause.len() implies 0 <= #[trigger] (clause[i] / 2)
            < VARS by {
            if i == 0 {
            } else {
            }
        }
    }
}

/// Where nothing is known, the examination keeps every literal.
pub proof fn lemma_scan_blank(facts: Facts, clause: Seq<int>, n: int)
    requires
        blank(facts),
        over_vars(clause),
        0 <= n <= clause.len(),
    ensures
        scan(facts, clause, n) == (Scan { kept: clause.take(n), satisfied: false }),
    decreases n,
{
    if n > 0 {
        lemma_scan_blank(facts, clause, n - 1);
        assert(0 <= clause[n - 1] / 2 < VARS);
        assert(facts.code(clause[n - 1] / 2) == 0);
        assert(clause.take(n - 1).push(clause[n - 1]) =~= clause.take(n));
    } else {
        assert(clause.take(0) =~= Seq::<int>::empty());
    }
}

/// A run that has stored `clauses` clauses with `literals` literals since
/// `start`, without a fault and without learning anything.
pub open spec fn stored_since(start: Puzzle, run: Run, literals: int, clauses: int) -> bool {
    &&& run.fault is None
    &&& run.puzzle.facts == start.facts
    &&& run.puzzle.rng == start.rng
    &&& run.puzzle.pool.len() == start.pool.len() + literals
    &&& run.puzzle.starts.len() == start.starts.len() + clauses
}

/// Where nothing is known, a clause of two or more literals is stored whole.
pub proof fn lemma_insert_blank(
    start: Puzzle,
    run: Run,
    literals: int,
    clauses: int,
    clause: Seq<int>,
)
    requires
        blank(start.facts),
        stored_since(start, run, literals, clauses),
        over_vars(clause),
        clause.len() >= 2,
        start.pool.len() + literals + clause.len() <= LITERALS,
        start.starts.len() + clauses < CLAUSES,
    ensures
        stored_since(start, run.insert(clause), literals + clause.len(), clauses + 1),
{
    reveal(Puzzle::insert);
    lemma_scan_blank(run.puzzle.facts, clause, clause.len() as int);
    assert(clause.take(clause.len() as int) =~= clause);
}

/// Where nothing is known, the pairs of one member with those before it are
/// all stored.
pub proof fn lemma_separate_from_blank(
    start: Puzzle,
    run: Run,
    literals: int,
    clauses: int,
    family: Family,
    k: int,
    high: int,
    n: int,
)
    requires
        blank(start.facts),
        stored_since(start, run, literals, clauses),
        0 <= k < 81,
        0 <= n <= high < 9,
        start.pool.len() + literals + 2 * n <= LITERALS,
        start.starts.len() + clauses + n <= CLAUSES,
    ensures
        stored_since(
            start,
            run.separate_from(group_of(family, k), high, n),
            literals + 2 * n,
            clauses + n,
        ),
    decreases n,
{
    if n > 0 {
        lemma_separate_from_blank(start, run, literals, clauses, family, k, high, n - 1);
        lemma_group_of(family, k);
        lemma_insert_blank(
            start,
            run.separate_from(group_of(family, k), high, n - 1),
            literals + 2 * (n - 1),
            clauses + n - 1,
            uniqueness(group_of(family, k), n - 1, high),
        );
    }
}

/// Where nothing is known, the pairs among the first members of a group are
/// all stored.
pub proof fn lemma_separate_blank(
    start: Puzzle,
    run: Run,
    literals: int,
    clauses: int,
    family: Family,
    k: int,
    n: int,
)
    requires
        blank(start.facts),
        stored_since(start, run, literals, clauses),
        0 <= k < 81,
        0 <= n <= 9,
        start.pool.len() + literals + 72 <= LITERALS,
        start.starts.len() + clauses + 36 <= CLAUSES,
    ensures
        stored_since(
            start,
            run.separate(group_of(family, k), n),
            literals + 2 * pairs_among(n),
            clauses + pairs_among(n),
        ),
        0 <= pairs_among(n) <= 36,
        n == 9 ==> pairs_among(n) == 36,
    decreases n,
{
    crate::puzzle::lemma_pairs_among_nine();
    if n > 0 {
        lemma_separate_blank(start, run, literals, clauses, family, k, n - 1);
        assert(pairs_among(n - 1) + (n - 1) <= 36);
        lemma_separate_from_blank(
            start,
            run.separate(group_of(family, k), n - 1),
            literals + 2 * pairs_among(n - 1),
            clauses + pairs_among(n - 1),
            family,
            k,
            n - 1,
            n - 1,
        );
    }
}

/// Where nothing is known, the definedness clauses of a family are all
/// stored.
pub proof fn lemma_define_family_blank(
    start: Puzzle,
    run: Run,
    literals: int,
    clauses: int,
    family: Family,
    n: int,
)
    requires
        blank(start.facts),
        stored_since(start, run, literals, clauses),
        0 <= n <= 81,
        start.pool.len() + literals + 9 * n <= LITERALS,
        start.starts.len() + clauses + n <= CLAUSES,
    ensures
        stored_since(start, run.define_family(family, n), literals + 9 * n, clauses + n),
    decreases n,
{
    if n > 0 {
        lemma_define_family_blank(start, run, literals, clauses, family, n - 1);
        lemma_group_of(family, n - 1);
        lemma_insert_blank(
            start,
            run.define_family(family, n - 1),
            literals + 9 * (n - 1),
            clauses + n - 1,
            definedness(group_of(family, n - 1)),
        );
    }
}

/// Where nothing is known, the uniqueness clauses of a family are all
/// stored.
pub proof fn lemma_separate_family_blank(
    start: Puzzle,
    run: Run,
    literals: int,
    clauses: int,
    family: Family,
    n: int,
)
    requires
        blank(start.facts),
        stored_since(start, run, literals, clauses),
        0 <= n <= 81,
        start.pool.len() + literals + 72 * n <= LITERALS,
        start.starts.len() + clauses + 36 * n <= CLAUSES,
    ensures
        stored_since(start, run.separate_family(family, n), literals + 72 * n, clauses + 36 * n),
    decreases n,
{
    if n > 0 {
        lemma_separate_family_blank(start, run, literals, clauses, family, n - 1);
        lemma_separate_blank(
            start,
            run.separate_family(family, n - 1),
            literals + 72 * (n - 1),
            clauses + 36 * (n - 1),
            family,
            n - 1,
            9,
        );
    }
}

/// The capacity of the pools is exact: a generation from a store in which
/// nothing is known ends without a fault, learns nothing, and stores every
/// clause of the encoding whole, which fills both pools to the last place.
pub proof fn lemma_generate_blank(puzzle: Puzzle)
    requires
        blank(puzzle.facts),
    ensures
        puzzle.generate().fault is None,
        puzzle.generate().puzzle.facts == puzzle.cleared().facts,
        puzzle.generate().puzzle.rng == puzzle.rng,
        puzzle.generate().puzzle.starts.len() == CLAUSES,
        puzzle.generate().puzzle.pool.len() == LITERALS,
{
    reveal(Puzzle::generate);
    let start = puzzle.cleared();
    assert forall|var: int| 0 <= var < VARS implies #[trigger] start.facts.code(var) == 0 by {
        assert(puzzle.facts.code(var) == 0);
    }
    let s0 = Run::ok(start);
    lemma_define_family_blank(start, s0, 0, 0, Family::Cell, 81);
    let s1 = s0.define_family(Family::Cell, 81);
    lemma_define_family_blank(start, s1, 729, 81, Family::Row, 81);
    let s2 = s1.define_family(Family::Row, 81);
    lemma_define_family_blank(start, s2, 1458, 162, Family::Column, 81);
    let s3 = s2.define_family(Family::Column, 81);
    lemma_define_family_blank(start, s3, 2187, 243, Family::Block, 81);
    let s4 = s3.define_family(Family::Block, 81);
    lemma_separate_family_blank(start, s4, 2916, 324, Family::Cell, 81);
    let s5 = s4.separate_family(Family::Cell, 81);
    lemma_separate_family_blank(start, s5, 8748, 3240, Family::Row, 81);
    let s6 = s5.separate_family(Family::Row, 81);
    lemma_separate_family_blank(start, s6, 14580, 6156, Family::Column, 81);
    let s7 = s6.separate_family(Family::Column, 81);
    lemma_separate_family_blank(start, s7, 20412, 9072, Family::Block, 81);
}

/// Stored clause `j` of the engine has no literal that some stored clause of
/// `source` lacks: it is what is left of that clause.
pub open spec fn left_of(puzzle: Puzzle, j: int, source: Puzzle) -> bool {
    exists|i: int|
        0 <= i < source.starts.len() && within(puzzle.clause(j), #[trigger] source.clause(i))
}

/// What the submission of a clause does to the stored clauses where it ends
/// without a fault: those stored before stay as they are, and at most one is
/// added, which has no literal that the clause submitted lacks.
pub proof fn lemma_insert_shape(puzzle: Puzzle, clause: Seq<int>)
    requires
        layout(puzzle),
        puzzle.insert(clause).fault is None,
    ensures
        layout(puzzle.insert(clause).puzzle),
        puzzle.starts.len() <= puzzle.insert(clause).puzzle.starts.len() <= puzzle.starts.len() + 1,
        forall|j: int|
            0 <= j < puzzle.starts.len() ==> #[trigger] puzzle.insert(clause).puzzle.clause(j)
                == puzzle.clause(j),
        puzzle.insert(clause).puzzle.starts.len() == puzzle.starts.len() + 1 ==> within(
            puzzle.insert(clause).puzzle.clause(puzzle.starts.len() as int),
            clause,
        ),
{
    reveal(Puzzle::insert);
    let after = puzzle.insert(clause).puzzle;
    let found = scan(puzzle.facts, clause, clause.len() as int);
    lemma_scan_meaning(puzzle.facts, clause, clause.len() as int);
    let last = puzzle.starts.len() as int;
    assert forall|j: int| 0 <= j < after.starts.len()
        implies 0 <= #[trigger] after.starts[j] by {
        if j < last {
            lemma_layout_at(puzzle, j);
        }
    }
    assert forall|j: int| 0 <= j < after.starts.len() implies after.starts[j]
        <= #[trigger] after.end(j) && after.end(j) <= after.pool.len() by {
        if j < last {
            lemma_layout_at(puzzle, j);
            if after.starts.len() == last {
                assert(after.end(j) == puzzle.end(j));
            }
        }
    }
    assert forall|j: int| 0 <= j < puzzle.starts.len() implies #[trigger] after.clause(j)
        == puzzle.clause(j) by {
        lemma_layout_at(puzzle, j);
        assert(after.end(j) == puzzle.end(j));
        assert(after.clause(j) =~= puzzle.clause(j));
    }
    if after.starts.len() == last + 1 {
        assert(after.clause(last) =~= found.kept);
        assert forall|a: int| 0 <= a < after.clause(last).len() implies clause.contains(
            #[trigger] after.clause(last)[a],
        ) by {
            assert(after.clause(last)[a] == found.kept[a]);
        }
    }
}

/// Every clause that a run through the stored clauses of `source` has added
/// is what is left of one of them.
pub proof fn lemma_resubmit_parts(run: Run, source: Puzzle, n: int, j: int)
    requires
        layout(run.puzzle),
        run.fault is None,
        0 <= n <= source.starts.len(),
        run.resubmit(source, n).fault is None,
        run.puzzle.starts.len() <= j < run.resubmit(source, n).puzzle.starts.len(),
    ensures
        layout(run.resubmit(source, n).puzzle),
        run.puzzle.starts.len() <= run.resubmit(source, n).puzzle.starts.len(),
        left_of(run.resubmit(source, n).puzzle, j, source),
    decreases n,
{
    if n > 0 {
        let before = run.resubmit(source, n - 1);
        let after = run.resubmit(source, n);
        lemma_resubmit_layout(run, source, n - 1);
        lemma_insert_shape(before.puzzle, source.clause(n - 1));
        if j < before.puzzle.starts.len() {
            lemma_resubmit_parts(run, source, n - 1, j);
            let i = choose|i: int|
                0 <= i < source.starts.len() && within(
                    before.puzzle.clause(j),
                    #[trigger] source.clause(i),
                );
            assert(after.puzzle.clause(j) == before.puzzle.clause(j));
            assert(within(after.puzzle.clause(j), source.clause(i)));
        } else {
            assert(within(after.puzzle.clause(j), source.clause(n - 1)));
        }
    }
}

/// A run through the stored clauses that ends without a fault had no fault
/// on its way, and keeps the stored clauses within the pool.
pub proof fn lemma_resubmit_layout(run: Run, source: Puzzle, n: int)
    requires
        layout(run.puzzle),
        run.fault is None,
        0 <= n <= source.starts.len(),
        run.resubmit(source, n + 1).fault is None || run.resubmit(source, n).fault is None,
    ensures
        run.resubmit(source, n).fault is None,
        layout(run.resubmit(source, n).puzzle),
        run.puzzle.starts.len() <= run.resubmit(source, n).puzzle.starts.len(),
    decreases n,
{
    if n > 0 {
        lemma_resubmit_layout(run, source, n - 1);
        lemma_insert_shape(run.resubmit(source, n - 1).puzzle, source.clause(n - 1));
    }
}

/// A reduction only shrinks: every clause that it leaves is what is left of
/// a clause that was stored before.
pub proof fn lemma_reduce_parts(puzzle: Puzzle, j: int)
    requires
        puzzle.reduce().fault is None,
        0 <= j < puzzle.reduce().puzzle.starts.len(),
    ensures
        left_of(puzzle.reduce().puzzle, j, puzzle),
{
    reveal(Puzzle::reduce);
    lemma_resubmit_parts(Run::ok(puzzle.cleared()), puzzle, puzzle.starts.len() as int, j);
}

} // verus!
