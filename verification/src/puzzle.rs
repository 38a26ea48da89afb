//! The mathematical model of the engine: the assignment store together with
//! the stored clauses and the state of the random stream, and what insertion,
//! generation, reduction and search make of it.
use vstd::prelude::*;
use crate::facts::Facts;
use crate::groups::{
    block_group, cell_group, column_group, complement, negative, positive, row_group,
};
use crate::{CLAUSES, GRID, LITERALS, VALUES};

verus! {

/// Why a step of generation, reduction or insertion was given up.
#[derive(Clone, Copy, PartialEq, Eq, Structural, Debug)]
pub enum Fault {
    /// The literal pool or the clause pool has no room for the clause.
    CapacityExceeded,
    /// Every literal of the clause is known to be false: the facts recorded
    /// contradict the rules.
    EmptyClause,
    /// A stored clause has more literals than a group has members.
    OversizedClause,
}

/// The four families of groups of nine variables among which exactly one
/// holds.
#[derive(Clone, Copy, PartialEq, Eq, Structural, Debug)]
pub enum Family {
    /// The digits of a cell.
    Cell,
    /// The places of a digit in a row.
    Row,
    /// The places of a digit in a column.
    Column,
    /// The places of a digit in a block.
    Block,
}

/// Group `k` of a family, for `k` from 0 to 80: cells row by row; rows and
/// columns each with its digits in turn; blocks row by row, each with its
/// digits in turn.
#[verifier::opaque]
pub open spec fn group_of(family: Family, k: int) -> Seq<int> {
    match family {
        Family::Cell => cell_group(k / 9, k % 9),
        Family::Row => row_group(k / 9, k % 9),
        Family::Column => column_group(k / 9, k % 9),
        Family::Block => block_group(3 * (k / 27), 3 * (k / 9 % 3), k % 9),
    }
}

/// The clause that says that one member of `group` holds.
pub open spec fn definedness(group: Seq<int>) -> Seq<int> {
    Seq::new(group.len(), |i: int| positive(group[i]))
}

/// The clause that says that the members of `group` at `low` and `high` do
/// not both hold.
pub open spec fn uniqueness(group: Seq<int>, low: int, high: int) -> Seq<int> {
    seq![negative(group[low]), negative(group[high])]
}

/// Whether nothing is known of the variable of literal `lit`.
pub open spec fn unknown(facts: Facts, lit: int) -> bool {
    facts.code(lit / 2) == 0
}

/// Whether literal `lit` is known to hold: its variable has exactly the truth
/// value that the literal asks for.
pub open spec fn holds(facts: Facts, lit: int) -> bool {
    facts.code(lit / 2) == if lit % 2 == 1 {
        2int
    } else {
        1int
    }
}

/// What the examination of a clause has found.
pub struct Scan {
    /// The literals of which nothing is known, in the order of the clause.
    pub kept: Seq<int>,
    /// Whether a literal was found that is known to hold.
    pub satisfied: bool,
}

/// What the examination of the first `n` literals of `clause` finds. It ends
/// at the first literal that is known to hold; literals known to be false are
/// passed over.
pub open spec fn scan(facts: Facts, clause: Seq<int>, n: int) -> Scan
    decreases n,
{
    if n <= 0 {
        Scan { kept: Seq::empty(), satisfied: false }
    } else {
        let before = scan(facts, clause, n - 1);
        if before.satisfied {
            before
        } else if unknown(facts, clause[n - 1]) {
            Scan { kept: before.kept.push(clause[n - 1]), satisfied: false }
        } else if holds(facts, clause[n - 1]) {
            Scan { kept: before.kept, satisfied: true }
        } else {
            before
        }
    }
}

/// The next state of the 32-bit xorshift stream.
pub open spec fn xorshift(x: u32) -> u32 {
    let a = x ^ (x << 13);
    let b = a ^ (a >> 17);
    b ^ (b << 5)
}

/// The number below `limit` that the state `x` of the stream selects.
pub open spec fn scale(x: u32, limit: int) -> int {
    (x as int * limit) / 0x1_0000_0000
}

/// The state of the engine.
pub struct Puzzle {
    /// The assignment store.
    pub facts: Facts,
    /// The literals of the stored clauses, clause after clause.
    pub pool: Seq<int>,
    /// For each stored clause, the position in the pool of its first literal.
    /// A clause ends where the next begins, the last at the end of the pool.
    pub starts: Seq<int>,
    /// The state of the random stream.
    pub rng: u32,
}

/// A state of the engine, and the fault that stopped the work on it, if any.
pub struct Run {
    pub puzzle: Puzzle,
    pub fault: Option<Fault>,
}

/// The outcome of a search: the state it left, and whether it found an
/// assignment that satisfies every clause.
pub struct Verdict {
    pub puzzle: Puzzle,
    pub found: bool,
}

impl Puzzle {
    /// The engine before anything is known or stored, with the random stream
    /// in state `seed`.
    pub open spec fn sown(seed: u32) -> Puzzle {
        Puzzle { facts: Facts::empty(), pool: Seq::empty(), starts: Seq::empty(), rng: seed }
    }

    /// The position in the pool at which stored clause `i` ends.
    pub open spec fn end(self, i: int) -> int {
        if i + 1 < self.starts.len() {
            self.starts[i + 1]
        } else {
            self.pool.len() as int
        }
    }

    /// Stored clause `i`.
    pub open spec fn clause(self, i: int) -> Seq<int> {
        self.pool.subrange(self.starts[i], self.end(i))
    }

    /// The invariant of the engine: the store is well formed; the pools are
    /// within their capacity; the stored clauses lie one after the other from
    /// the start of the pool, each with at least two literals; and unless new
    /// facts are pending, nothing is known of the variable of any stored
    /// literal.
    pub open spec fn wf(self) -> bool {
        &&& self.facts.wf()
        &&& self.pool.len() <= LITERALS
        &&& self.starts.len() <= CLAUSES
        &&& forall|k: int| 0 <= k < self.pool.len() ==> 0 <= #[trigger] self.pool[k] < VALUES
        &&& self.starts.len() == 0 ==> self.pool.len() == 0
        &&& self.starts.len() > 0 ==> self.starts[0] == 0
        &&& forall|i: int| 0 <= i < self.starts.len() ==> 0 <= #[trigger] self.starts[i]
        &&& forall|i: int|
            0 <= i < self.starts.len() ==> self.starts[i] + 2 <= #[trigger] self.end(i)
                <= self.pool.len()
        &&& !self.facts.pending ==> forall|k: int|
            0 <= k < self.pool.len() ==> unknown(self.facts, #[trigger] self.pool[k])
    }

    /// The engine with no clause stored and no new facts pending.
    pub open spec fn cleared(self) -> Puzzle {
        Puzzle {
            facts: Facts { pending: false, ..self.facts },
            pool: Seq::empty(),
            starts: Seq::empty(),
            ..self
        }
    }

    /// The engine after `clause` was submitted. A clause with a literal known
    /// to hold is dropped, and nothing changes. Of the others, the literals
    /// of which nothing is known remain: none is a contradiction, one is
    /// forced at once, two or more are stored as a clause. Only a clause that
    /// is to be stored needs room: in the literal pool for what remains of
    /// it, and in the clause pool.
    #[verifier::opaque]
    pub open spec fn insert(self, clause: Seq<int>) -> Run {
        let found = scan(self.facts, clause, clause.len() as int);
        if found.satisfied {
            Run { puzzle: self, fault: None }
        } else if found.kept.len() == 0 {
            Run { puzzle: self, fault: Some(Fault::EmptyClause) }
        } else if found.kept.len() == 1 {
            Run {
                puzzle: Puzzle {
                    facts: self.facts.force(found.kept[0] / 2, found.kept[0] % 2 == 1),
                    ..self
                },
                fault: None,
            }
        } else if self.pool.len() + found.kept.len() > LITERALS || self.starts.len() >= CLAUSES {
            Run { puzzle: self, fault: Some(Fault::CapacityExceeded) }
        } else {
            Run {
                puzzle: Puzzle {
                    pool: self.pool + found.kept,
                    starts: self.starts.push(self.pool.len() as int),
                    ..self
                },
                fault: None,
            }
        }
    }

    /// The engine after the clauses of the rules were generated against the
    /// store as it stands: first the definedness clauses of the cells, the
    /// rows, the columns and the blocks, then the uniqueness clauses in the
    /// same order.
    #[verifier::opaque]
    pub open spec fn generate(self) -> Run {
        Run::ok(self.cleared())
            .define_family(Family::Cell, 81)
            .define_family(Family::Row, 81)
            .define_family(Family::Column, 81)
            .define_family(Family::Block, 81)
            .separate_family(Family::Cell, 81)
            .separate_family(Family::Row, 81)
            .separate_family(Family::Column, 81)
            .separate_family(Family::Block, 81)
    }

    /// The engine after every stored clause was submitted again, in order, to
    /// a pool that starts empty.
    #[verifier::opaque]
    pub open spec fn reduce(self) -> Run {
        Run::ok(self.cleared()).resubmit(self, self.starts.len() as int)
    }

    /// Whether `later` knows more literals than this engine. This is what
    /// makes propagation and search come to an end: each goes on only from an
    /// engine that knows more. The engine itself has no need to test it: from
    /// a well-formed engine, every reduction that leaves new facts pending,
    /// every decision of a branch and every turn to the other side of a
    /// branch adds to the log, as the proofs of `Sudoku::propagate` and
    /// `Sudoku::dpll` show.
    pub open spec fn grows_to(self, later: Puzzle) -> bool {
        self.facts.log.len() < later.facts.log.len() <= VALUES
    }

    /// The engine after reduction was repeated for as long as new facts were
    /// pending and clauses remained.
    pub open spec fn propagate(self) -> Run
        decreases VALUES - self.facts.log.len(),
    {
        if !(self.facts.pending && self.starts.len() != 0) {
            Run::ok(self)
        } else {
            let reduced = self.reduce();
            if reduced.fault is Some {
                reduced
            } else if self.grows_to(reduced.puzzle) {
                reduced.puzzle.propagate()
            } else {
                reduced
            }
        }
    }

    /// The engine with the random stream advanced by one step.
    pub open spec fn stepped(self) -> Puzzle {
        Puzzle { rng: xorshift(self.rng), ..self }
    }

    /// The stored literal that the random stream selects at its next step.
    pub open spec fn drawn(self) -> int {
        self.pool[scale(xorshift(self.rng), self.pool.len() as int)]
    }

    /// The engine with its store replaced.
    pub open spec fn with_facts(self, facts: Facts) -> Puzzle {
        Puzzle { facts, ..self }
    }

    /// The outcome of the search. After propagation: a fault fails; no clause
    /// left succeeds. Else the place of the branch is marked: the current
    /// length of the log goes on the checkpoint stack, where the stack has
    /// room. A stored literal is drawn and recorded as holding, and the search
    /// goes on from there. If that succeeds, the checkpoint is dropped. If it
    /// fails, the store is taken back to the mark, the checkpoint is popped,
    /// the complement of the literal is recorded, the clauses are generated
    /// anew, and the search goes on from there.
    pub open spec fn search(self) -> Verdict
        decreases VALUES - self.facts.log.len(),
    {
        let settled = self.propagate();
        if settled.fault is Some {
            Verdict { puzzle: settled.puzzle, found: false }
        } else if settled.puzzle.starts.len() == 0 {
            Verdict { puzzle: settled.puzzle, found: true }
        } else {
            let pushed = settled.puzzle.facts.depth < GRID;
            let mark = settled.puzzle.facts.log.len() as int;
            let lit = settled.puzzle.drawn();
            let branch = settled.puzzle.stepped().with_facts(
                settled.puzzle.facts.checkpoint().learn(lit),
            );
            if !self.grows_to(branch) {
                Verdict { puzzle: branch, found: false }
            } else {
                let first = branch.search();
                if first.found {
                    Verdict {
                        puzzle: first.puzzle.with_facts(
                            if pushed {
                                first.puzzle.facts.discard()
                            } else {
                                first.puzzle.facts
                            },
                        ),
                        found: true,
                    }
                } else {
                    let undone = if pushed {
                        first.puzzle.facts.rollback()
                    } else {
                        first.puzzle.facts.retract(mark)
                    };
                    let other = first.puzzle.with_facts(undone.learn(complement(lit))).generate();
                    if other.fault is Some {
                        Verdict { puzzle: other.puzzle, found: false }
                    } else if !self.grows_to(other.puzzle) {
                        Verdict { puzzle: other.puzzle, found: false }
                    } else {
                        other.puzzle.search()
                    }
                }
            }
        }
    }

    /// The outcome of solving: generation, then the search; a fault in
    /// generation fails.
    pub open spec fn solve(self) -> Verdict {
        let generated = self.generate();
        if generated.fault is Some {
            Verdict { puzzle: generated.puzzle, found: false }
        } else {
            generated.puzzle.search()
        }
    }

    /// The store that holds the placements among the first `n` decisions of
    /// `solved`: for each slot of its checkpoint stack, the log entry at the
    /// recorded position, where there is one and it is a positive literal.
    pub open spec fn decisions(solved: Facts, n: int) -> Facts
        decreases n,
    {
        if n <= 0 {
            Facts::empty()
        } else {
            let before = Self::decisions(solved, n - 1);
            let pos = solved.marks[n - 1];
            if pos < solved.log.len() && solved.log[pos] % 2 == 1 {
                before.force(solved.log[pos] / 2, true)
            } else {
                before
            }
        }
    }

    /// The engine that holds as clues the placements that the search had to
    /// decide on, and no clause.
    pub open spec fn clues(self) -> Puzzle {
        Puzzle {
            facts: Self::decisions(self.facts, GRID as int),
            pool: Seq::empty(),
            starts: Seq::empty(),
            ..self
        }
    }

    /// The engine as the search from seed `seed` leaves it: from the empty
    /// store the clauses are generated and the search is run, whatever the
    /// outcome of the generation.
    pub open spec fn reference(seed: u32) -> Puzzle {
        Self::sown(seed).generate().puzzle.search().puzzle
    }

    /// Whether the generation and the search from seed `seed` both succeed.
    pub open spec fn finished(seed: u32) -> bool {
        let generated = Self::sown(seed).generate();
        generated.fault is None && generated.puzzle.search().found
    }

    /// The puzzle that seed `seed` generates: the decisions of the search
    /// from that seed are the clues.
    pub open spec fn instance(seed: u32) -> Puzzle {
        Self::reference(seed).clues()
    }
}

impl Run {
    /// The run that starts at `puzzle`.
    pub open spec fn ok(puzzle: Puzzle) -> Run {
        Run { puzzle, fault: None }
    }

    /// The run after `clause` was submitted; a run that was stopped stays as
    /// it is.
    pub open spec fn insert(self, clause: Seq<int>) -> Run {
        if self.fault is Some {
            self
        } else {
            self.puzzle.insert(clause)
        }
    }

    /// The run after the definedness clause of `group` was submitted.
    pub open spec fn define(self, group: Seq<int>) -> Run {
        self.insert(definedness(group))
    }

    /// The run after the uniqueness clauses of the member at `high` with each
    /// of the first `n` members of `group` were submitted.
    pub open spec fn separate_from(self, group: Seq<int>, high: int, n: int) -> Run
        decreases n,
    {
        if n <= 0 {
            self
        } else {
            self.separate_from(group, high, n - 1).insert(uniqueness(group, n - 1, high))
        }
    }

    /// The run after the uniqueness clauses of every pair among the first `n`
    /// members of `group` were submitted: for each member in turn, its pairs
    /// with the members before it.
    pub open spec fn separate(self, group: Seq<int>, n: int) -> Run
        decreases n,
    {
        if n <= 0 {
            self
        } else {
            self.separate(group, n - 1).separate_from(group, n - 1, n - 1)
        }
    }

    /// The run after the definedness clauses of the first `n` groups of
    /// `family` were submitted.
    pub open spec fn define_family(self, family: Family, n: int) -> Run
        decreases n,
    {
        if n <= 0 {
            self
        } else {
            self.define_family(family, n - 1).define(group_of(family, n - 1))
        }
    }

    /// The run after the uniqueness clauses of the first `n` groups of
    /// `family` were submitted.
    pub open spec fn separate_family(self, family: Family, n: int) -> Run
        decreases n,
    {
        if n <= 0 {
            self
        } else {
            self.separate_family(family, n - 1).separate(group_of(family, n - 1), 9)
        }
    }

    /// The run after the first `n` clauses stored in `source` were submitted,
    /// in order. A clause of more than nine literals stops the run.
    pub open spec fn resubmit(self, source: Puzzle, n: int) -> Run
        decreases n,
    {
        if n <= 0 {
            self
        } else {
            let before = self.resubmit(source, n - 1);
            if before.fault is Some {
                before
            } else if source.clause(n - 1).len() > 9 {
                Run { puzzle: before.puzzle, fault: Some(Fault::OversizedClause) }
            } else {
                before.puzzle.insert(source.clause(n - 1))
            }
        }
    }
}

/// The run that ended in state `puzzle` with result `r`.
pub open spec fn outcome(puzzle: Puzzle, r: Result<(), Fault>) -> Run {
    Run {
        puzzle,
        fault: match r {
            Ok(_) => None,
            Err(fault) => Some(fault),
        },
    }
}

/// An examination that has found a literal that holds finds nothing more, and
/// the examination of more literals keeps at least as many: never more than
/// it examined.
pub proof fn lemma_scan_rest(facts: Facts, clause: Seq<int>, i: int, n: int)
    requires
        0 <= i <= n,
    ensures
        scan(facts, clause, i).satisfied ==> scan(facts, clause, n) == scan(facts, clause, i),
        scan(facts, clause, i).kept.len() <= scan(facts, clause, n).kept.len() <= n,
    decreases n,
{
    if i < n {
        lemma_scan_rest(facts, clause, i, n - 1);
    } else {
        lemma_scan_bound(facts, clause, n);
    }
}

/// An examination keeps no more literals than it examined.
pub proof fn lemma_scan_bound(facts: Facts, clause: Seq<int>, n: int)
    requires
        0 <= n,
    ensures
        scan(facts, clause, n).kept.len() <= n,
    decreases n,
{
    if 0 < n {
        lemma_scan_bound(facts, clause, n - 1);
    }
}

/// The number of pairs among the first `n` members of a group.
pub open spec fn pairs_among(n: int) -> int
    decreases n,
{
    if n <= 0 {
        0
    } else {
        pairs_among(n - 1) + n - 1
    }
}

/// A group of nine has 36 pairs.
pub proof fn lemma_pairs_among_nine()
    ensures
        pairs_among(9) == 36,
        forall|n: int| 0 <= n < 9 ==> #[trigger] pairs_among(n) + n <= 36,
{
    reveal_with_fuel(pairs_among, 10);
    assert forall|n: int| 0 <= n < 9 implies #[trigger] pairs_among(n) + n <= 36 by {
        if n == 0 {
        } else if n == 1 {
        } else if n == 2 {
        } else if n == 3 {
        } else if n == 4 {
        } else if n == 5 {
        } else if n == 6 {
        } else if n == 7 {
        } else {
        }
    }
}

/// What a step of the work on the clauses may do to the engine: it keeps the
/// invariant, only adds to the store, leaves the random stream alone, adds at
/// most `literals` literals and `clauses` clauses, reports missing capacity
/// only where that many would not fit, and never reports an oversized clause.
pub open spec fn advances(
    before: Puzzle,
    after: Puzzle,
    r: Result<(), Fault>,
    literals: int,
    clauses: int,
) -> bool {
    &&& after.wf()
    &&& after.facts.follows(before.facts)
    &&& after.rng == before.rng
    &&& after.pool.len() <= before.pool.len() + literals
    &&& after.starts.len() <= before.starts.len() + clauses
    &&& r == Err::<(), Fault>(Fault::CapacityExceeded) ==> before.pool.len() + literals > LITERALS
        || before.starts.len() + clauses > CLAUSES
    &&& r != Err::<(), Fault>(Fault::OversizedClause)
}

/// A run that was stopped stays as it is, whatever is submitted.
pub proof fn lemma_stopped_separate_from(run: Run, group: Seq<int>, high: int, m: int, n: int)
    requires
        0 <= m <= n,
        run.separate_from(group, high, m).fault is Some,
    ensures
        run.separate_from(group, high, n) == run.separate_from(group, high, m),
    decreases n,
{
    if m < n {
        lemma_stopped_separate_from(run, group, high, m, n - 1);
    }
}

/// A run that was stopped stays as it is, whatever is submitted.
pub proof fn lemma_stopped_separate(run: Run, group: Seq<int>, m: int, n: int)
    requires
        0 <= m <= n,
        run.separate(group, m).fault is Some,
    ensures
        run.separate(group, n) == run.separate(group, m),
    decreases n,
{
    if m < n {
        lemma_stopped_separate(run, group, m, n - 1);
        lemma_stopped_separate_from(run.separate(group, n - 1), group, n - 1, 0, n - 1);
    }
}

/// A run that was stopped stays as it is, whatever is submitted.
pub proof fn lemma_stopped_define_family(run: Run, family: Family, m: int, n: int)
    requires
        0 <= m <= n,
        run.define_family(family, m).fault is Some,
    ensures
        run.define_family(family, n) == run.define_family(family, m),
    decreases n,
{
    if m < n {
        lemma_stopped_define_family(run, family, m, n - 1);
    }
}

/// A run that was stopped stays as it is, whatever is submitted.
pub proof fn lemma_stopped_separate_family(run: Run, family: Family, m: int, n: int)
    requires
        0 <= m <= n,
        run.separate_family(family, m).fault is Some,
    ensures
        run.separate_family(family, n) == run.separate_family(family, m),
    decreases n,
{
    if m < n {
        lemma_stopped_separate_family(run, family, m, n - 1);
        lemma_stopped_separate(run.separate_family(family, n - 1), group_of(family, n - 1), 0, 9);
    }
}

/// A run that was stopped stays as it is, whatever is submitted.
pub proof fn lemma_stopped_resubmit(run: Run, source: Puzzle, m: int, n: int)
    requires
        0 <= m <= n,
        run.resubmit(source, m).fault is Some,
    ensures
        run.resubmit(source, n) == run.resubmit(source, m),
    decreases n,
{
    if m < n {
        lemma_stopped_resubmit(run, source, m, n - 1);
    }
}

} // verus!
