//! The engine: the assignment store, the clause store over fixed pools, and
//! the operations that fill, reduce and search them.
use vstd::prelude::*;
use crate::facts::{lemma_extends_chain, lemma_extends_self, lemma_force, lemma_learn, Facts};
use crate::groups::complement;
use crate::laws::{left_of, lemma_reduce_parts};
use crate::complete::{
    fit, keeps, keeps_with, lemma_branch_exhausted, lemma_branch_fit, lemma_clue_keeps,
    lemma_keeps_chain, lemma_keeps_unsat, lemma_reduce_sifts, satisfiable, sifts,
};
use crate::puzzle::{
    advances, lemma_scan_bound, lemma_scan_rest, lemma_stopped_resubmit, outcome, scale, scan,
    unknown, xorshift, Fault, Puzzle, Run,
};
use crate::smallindex::{values, SmallIndex};
use crate::sound::{
    coherent, lemma_blank_coherent, lemma_branch_ready, lemma_clue, lemma_ready_solved,
    lemma_reduce_ready, lemma_same_words_solved, lemma_turn_ready, ready, solved,
};
use crate::units::Units;
use crate::{CLAUSES, GRID, LITERALS, VALUES, VARS};

verus! {

/// The engine.
pub struct Sudoku {
    next_literal: usize,
    next_clause: usize,
    lfsr: u32,
    units: Units,
    clauses: [SmallIndex<LITERALS>; CLAUSES],
    literals: [SmallIndex<VALUES>; LITERALS],
}

impl View for Sudoku {
    type V = Puzzle;

    closed spec fn view(&self) -> Puzzle {
        Puzzle {
            facts: self.units@,
            pool: Seq::new(self.next_literal as nat, |i: int| self.literals[i].value()),
            starts: Seq::new(self.next_clause as nat, |i: int| self.clauses[i].value()),
            rng: self.lfsr,
        }
    }
}

impl Sudoku {
    /// The engine before anything is known or stored, with the random stream
    /// in state 0.
    pub fn new() -> (r: Self)
        ensures
            r@ == Puzzle::sown(0),
            r@.wf(),
            coherent(r@.facts),
    {
        let r = Self {
            next_literal: 0,
            next_clause: 0,
            lfsr: 0,
            units: Units::new(),
            clauses: SmallIndex::array(),
            literals: SmallIndex::array(),
        };
        proof {
            assert(r@.pool =~= Seq::<int>::empty());
            assert(r@.starts =~= Seq::<int>::empty());
            lemma_blank_coherent(r@.facts);
        }
        r
    }

    /// Submits `clause` and says, besides what the model says, which part of
    /// the literal pool it left alone.
    fn place(&mut self, clause: &[SmallIndex<VALUES>]) -> (r: Result<(), Fault>)
        requires
            old(self)@.wf(),
        ensures
            outcome(final(self)@, r) == old(self)@.insert(values(clause@)),
            final(self)@.wf(),
            final(self)@.facts.follows(old(self)@.facts),
            final(self).next_literal <= old(self).next_literal + clause@.len(),
            final(self).next_clause <= old(self).next_clause + 1,
            r == Err::<(), Fault>(Fault::CapacityExceeded)
                ==> old(self).next_literal + clause@.len()
                > LITERALS || old(self).next_clause >= CLAUSES,
            r is Err ==> r != Err::<(), Fault>(Fault::OversizedClause),
            forall|k: int|
                old(self).next_literal + clause@.len() <= k < LITERALS ==> final(self).literals[k]
                    == old(self).literals[k],
            forall|j: int|
                0 <= j < CLAUSES && j != old(self).next_clause ==> final(self).clauses[j] == old(
                    self,
                ).clauses[j],
    {
        let ghost facts = self@.facts;
        let ghost given = values(clause@);
        let first: usize = self.next_literal;
        let room: usize = LITERALS - first;
        reveal(Puzzle::insert);
        let mut count: usize = 0;
        let mut forced: SmallIndex<VALUES> = SmallIndex::new_unchecked(0);
        let mut i: usize = 0;
        proof {
            crate::facts::lemma_extends_self(facts);
        }
        while i < clause.len()
            invariant
                i <= clause@.len(),
                count <= i,
                first <= LITERALS,
                room == LITERALS - first,
                first == old(self).next_literal,
                self.next_literal == old(self).next_literal,
                self.next_clause == old(self).next_clause,
                self.lfsr == old(self).lfsr,
                self.units == old(self).units,
                self.clauses == old(self).clauses,
                facts == old(self)@.facts,
                facts.follows(facts),
                old(self)@.wf(),
                given == values(clause@),
                !scan(facts, given, i as int).satisfied,
                scan(facts, given, i as int).kept.len() == count,
                count >= 1 ==> forced.value() == scan(facts, given, i as int).kept[0],
                forall|k: int|
                    first <= k < first + count && k < LITERALS ==> (
                    #[trigger] self.literals[k]).value() == scan(facts, given, i as int).kept[k
                        - first],
                forall|j: int|
                    0 <= j < count ==> unknown(
                        facts,
                        #[trigger] scan(facts, given, i as int).kept[j],
                    ) && 0 <= scan(facts, given, i as int).kept[j] < VALUES,
                forall|k: int|
                    0 <= k < LITERALS && (k < first || first + clause@.len() <= k)
                        ==> self.literals[k] == old(self).literals[k],
            decreases clause@.len() - i,
        {
            let literal = clause[i];
            let (var, polarity) = literal.to_var();
            let code = self.units.get(var);
            proof {
                use_type_invariant(&literal);
                literal.lemma_in_range();
                assert(given[i as int] == literal.value());
                lemma_scan_rest(facts, given, i + 1, given.len() as int);
                assert(1u32 << 0u16 == 1u32 && 1u32 << 1u16 == 2u32) by (bit_vector);
                reveal(Puzzle::insert);
            }
            if code == 0 {
                if count == 0 {
                    forced = literal;
                }
                if count < room {
                    self.literals[first + count] = literal;
                }
                count += 1;
            } else if code == (1u32 << polarity) {
                proof {
                    assert(self@.pool =~= old(self)@.pool);
                    assert(self@.starts =~= old(self)@.starts);
                }
                return Ok(());
            }
            i += 1;
        }
        let ghost found = scan(facts, given, given.len() as int);
        proof {
            lemma_scan_bound(facts, given, given.len() as int);
        }
        if count == 0 {
            proof {
                assert(self@.pool =~= old(self)@.pool);
                assert(self@.starts =~= old(self)@.starts);
            }
            return Err(Fault::EmptyClause);
        }
        if count == 1 {
            let (var, polarity) = forced.to_var();
            proof {
                assert(forced.value() == found.kept[0]);
                lemma_force(facts, var.value(), polarity != 0);
            }
            self.units.set_false_or_assign(var, polarity != 0);
            proof {
                let before = old(self)@;
                let after = self@;
                assert(after.pool =~= before.pool);
                assert(after.starts =~= before.starts);
                assert(unknown(facts, found.kept[0]));
                assert(after.facts.pending);
                assert forall|i: int| 0 <= i < after.starts.len() implies after.starts[i] + 2
                    <= #[trigger] after.end(i) <= after.pool.len() by {
                    assert(before.starts[i] + 2 <= before.end(i));
                    assert(after.end(i) == before.end(i));
                }
            }
            return Ok(());
        }
        if count > room {
            proof {
                assert(self@.pool =~= old(self)@.pool);
                assert(self@.starts =~= old(self)@.starts);
            }
            return Err(Fault::CapacityExceeded);
        }
        let next: usize = first + count;
        let next_clause: usize = self.next_clause;
        if next_clause >= CLAUSES {
            proof {
                assert(self@.pool =~= old(self)@.pool);
                assert(self@.starts =~= old(self)@.starts);
            }
            return Err(Fault::CapacityExceeded);
        }
        self.clauses[next_clause] = SmallIndex::new_unchecked(first as u16);
        self.next_literal = next;
        self.next_clause = next_clause + 1;
        proof {
            let before = old(self)@;
            let after = before.insert(given).puzzle;
            assert(self@.pool =~= before.pool + found.kept);
            assert(self@.starts =~= before.starts.push(first as int));
            assert(self@ == after);
            assert(after.facts.wf());
            assert(after.pool.len() <= LITERALS);
            assert(after.starts.len() <= CLAUSES);
            assert(after.starts[0] == 0) by {
                if before.starts.len() > 0 {
                    assert(after.starts[0] == before.starts[0]);
                }
            }
            assert forall|i: int| 0 <= i < after.starts.len()
                implies 0 <= #[trigger] after.starts[i] by {
                if i < before.starts.len() {
                    assert(after.starts[i] == before.starts[i]);
                }
            }
            assert forall|i: int| 0 <= i < after.starts.len() implies after.starts[i] + 2
                <= #[trigger] after.end(i) <= after.pool.len() by {
                if i < before.starts.len() {
                    assert(before.starts[i] + 2 <= before.end(i));
                    assert(after.end(i) == before.end(i));
                }
            }
            if !after.facts.pending {
                assert forall|k: int| 0 <= k < after.pool.len() implies unknown(
                    after.facts,
                    #[trigger] after.pool[k],
                ) by {
                    if k < before.pool.len() {
                        assert(after.pool[k] == before.pool[k]);
                    } else {
                        assert(after.pool[k] == found.kept[k - before.pool.len()]);
                    }
                }
            }
            assert forall|k: int| 0 <= k < after.pool.len() implies 0 <= #[trigger] after.pool[k]
                < VALUES by {
                if k < before.pool.len() {
                    assert(after.pool[k] == before.pool[k]);
                } else {
                    assert(after.pool[k] == found.kept[k - before.pool.len()]);
                }
            }
        }
        Ok(())
    }

    /// Submits `clause` against the store as it stands. A clause with a
    /// literal known to hold is dropped; of the others, the literals of which
    /// nothing is known remain. None left is a contradiction and is reported;
    /// one left is forced at once; two or more are stored as a clause. A pool
    /// without room for the clause is reported.
    pub fn try_insert(&mut self, clause: &[SmallIndex<VALUES>]) -> (r: Result<(), Fault>)
        requires
            old(self)@.wf(),
        ensures
            outcome(final(self)@, r) == old(self)@.insert(values(clause@)),
            advances(old(self)@, final(self)@, r, clause@.len() as int, 1),
    {
        reveal(Puzzle::insert);
        self.place(clause)
    }

    /// Empties the clause store and clears the flag that says that new facts
    /// are pending.
    pub fn clear(&mut self)
        requires
            old(self)@.wf(),
        ensures
            final(self)@ == old(self)@.cleared(),
            final(self)@.wf(),
    {
        self.next_clause = 0;
        self.next_literal = 0;
        self.units.clear_pending();
        proof {
            assert(self@.pool =~= Seq::<int>::empty());
            assert(self@.starts =~= Seq::<int>::empty());
        }
    }

    /// Submits every stored clause again, in order, to a clause store that
    /// starts empty, so that the clauses shrink by what became known since
    /// they were stored. The flag that says that new facts are pending is
    /// cleared first. The pools always have room; the work ends at the first
    /// clause whose literals are all known to be false, or that has more
    /// than nine literals. Where the engine was fit for an exhaustive
    /// search, the one fault is the empty clause, which shows that the grid
    /// has no solution, and what is recorded is true of every solution.
    pub fn reduce_clauses(&mut self) -> (r: Result<(), Fault>)
        requires
            old(self)@.wf(),
        ensures
            outcome(final(self)@, r) == old(self)@.reduce(),
            final(self)@.wf(),
            final(self)@.facts.follows(old(self)@.cleared().facts),
            final(self)@.rng == old(self)@.rng,
            final(self)@.pool.len() <= old(self)@.pool.len(),
            final(self)@.starts.len() <= old(self)@.starts.len(),
            r != Err::<(), Fault>(Fault::CapacityExceeded),
            r is Ok && ready(old(self)@) ==> ready(final(self)@),
            r is Ok ==> forall|j: int|
                0 <= j < final(self)@.starts.len() ==> #[trigger] left_of(
                    final(self)@,
                    j,
                    old(self)@,
                ),
            fit(old(self)@) ==> sifts(old(self)@.facts, old(self)@.reduce()) && r != Err::<
                (),
                Fault,
            >(Fault::OversizedClause),
    {
        let r = self.resubmit_all();
        proof {
            if r is Ok {
                assert forall|j: int| 0 <= j < self@.starts.len() implies #[trigger] left_of(
                    self@,
                    j,
                    old(self)@,
                ) by {
                    lemma_reduce_parts(old(self)@, j);
                }
            }
            if ready(old(self)@) && r is Ok {
                lemma_reduce_ready(old(self)@);
            }
            if fit(old(self)@) {
                lemma_reduce_sifts(old(self)@);
            }
        }
        r
    }

    /// Submits every stored clause again to a clause store that starts
    /// empty.
    fn resubmit_all(&mut self) -> (r: Result<(), Fault>)
        requires
            old(self)@.wf(),
        ensures
            outcome(final(self)@, r) == old(self)@.reduce(),
            final(self)@.wf(),
            final(self)@.facts.follows(old(self)@.cleared().facts),
            final(self)@.rng == old(self)@.rng,
            final(self)@.pool.len() <= old(self)@.pool.len(),
            final(self)@.starts.len() <= old(self)@.starts.len(),
            r != Err::<(), Fault>(Fault::CapacityExceeded),
    {
        let ghost source = self@;
        reveal(Puzzle::insert);
        reveal(Puzzle::reduce);
        let len: usize = self.next_clause;
        let total: usize = self.next_literal;
        self.next_clause = 0;
        self.next_literal = 0;
        self.units.clear_pending();
        let ghost start = Run::ok(self@);
        proof {
            assert(self@.pool =~= Seq::<int>::empty());
            assert(self@.starts =~= Seq::<int>::empty());
            crate::facts::lemma_extends_self(self@.facts);
        }
        let mut i: usize = 0;
        while i < len
            invariant
                i <= len,
                len == old(self).next_clause,
                total == old(self).next_literal,
                source == old(self)@,
                source.wf(),
                start == Run::ok(source.cleared()),
                outcome(self@, Ok(())) == start.resubmit(source, i as int),
                self@.wf(),
                self@.facts.follows(source.cleared().facts),
                self.lfsr == old(self).lfsr,
                self.next_clause <= i,
                self.next_literal <= total,
                i < len ==> self.next_literal <= source.starts[i as int],
                forall|k: int|
                    0 <= k < LITERALS && i < len && source.starts[i as int] <= k
                        ==> self.literals[k] == old(self).literals[k],
                forall|j: int| i <= j < CLAUSES ==> self.clauses[j] == old(self).clauses[j],
            decreases len - i,
        {
            reveal(Puzzle::insert);
            reveal(Puzzle::reduce);
            let first: usize = self.clauses[i].raw() as usize;
            let next: usize = if i + 1 < len {
                self.clauses[i + 1].raw() as usize
            } else {
                total
            };
            proof {
                assert(source.starts[i as int] == first);
                assert(source.end(i as int) == next);
            }
            let n: usize = next - first;
            if n > 9 {
                proof {
                    assert(source.clause(i as int).len() == n);
                    assert(start.resubmit(source, i + 1) == outcome(
                        self@,
                        Err(Fault::OversizedClause),
                    ));
                    lemma_stopped_resubmit(start, source, i + 1, len as int);
                }
                return Err(Fault::OversizedClause);
            }
            let mut clause: [SmallIndex<VALUES>; 9] = SmallIndex::array();
            let mut j: usize = 0;
            while j < n
                invariant
                    j <= n <= 9,
                    first + n == next,
                    next <= LITERALS,
                    forall|k: int| 0 <= k < j ==> #[trigger] clause[k] == self.literals[first + k],
                decreases n - j,
            {
                clause[j] = self.literals[first + j];
                j += 1;
            }
            let ghost before = self@;
            let part = vstd::slice::slice_subrange(clause.as_slice(), 0, n);
            proof {
                assert(values(part@) =~= source.clause(i as int)) by {
                    assert forall|k: int| 0 <= k < n implies values(part@)[k] == source.clause(
                        i as int,
                    )[k] by {
                        assert(part@[k] == clause[k]);
                        assert(clause[k] == self.literals[first + k]);
                        assert(self.literals[first + k] == old(self).literals[first + k]);
                        assert(source.pool[first + k] == old(self).literals[first + k].value());
                    }
                }
            }
            let r = self.place(part);
            proof {
                crate::facts::lemma_follows_chain(
                    source.cleared().facts,
                    before.facts,
                    self@.facts,
                );
                assert(start.resubmit(source, i + 1) == outcome(self@, r));
                if i + 1 < len {
                    assert(source.starts[i + 1] == next);
                }
            }
            if r.is_err() {
                proof {
                    lemma_stopped_resubmit(start, source, i + 1, len as int);
                }
                return r;
            }
            i += 1;
        }
        Ok(())
    }

    /// Brings the engine back to its first state, with the random stream in
    /// state `seed`.
    pub fn reset(&mut self, seed: u32)
        ensures
            final(self)@ == Puzzle::sown(seed),
            final(self)@.wf(),
            coherent(final(self)@.facts),
    {
        self.units = Units::new();
        self.lfsr = seed;
        self.next_clause = 0;
        self.next_literal = 0;
        proof {
            assert(self@.pool =~= Seq::<int>::empty());
            assert(self@.starts =~= Seq::<int>::empty());
            lemma_blank_coherent(self@.facts);
        }
    }

    /// Places a digit in a cell, as variable `index` says, unless something
    /// is already known of that variable: then nothing changes.
    pub fn assign(&mut self, index: SmallIndex<VARS>)
        requires
            old(self)@.wf(),
        ensures
            old(self)@.facts.code(index.value()) != 0 ==> final(self)@ == old(self)@,
            old(self)@.facts.code(index.value()) == 0 ==> final(self)@ == old(self)@.with_facts(
                old(self)@.facts.force(index.value(), true),
            ),
            final(self)@.wf(),
            final(self)@.facts.code(index.value()) != 0,
            coherent(old(self)@.facts) ==> coherent(final(self)@.facts),
            old(self)@.facts.known_vars().subset_of(final(self)@.facts.known_vars()),
            old(self)@.facts.code(index.value()) == 0 ==> old(self)@.facts.known_vars().len() + 1
                <= final(self)@.facts.known_vars().len(),
            keeps_with(old(self)@.facts, final(self)@.facts, index.value()),
    {
        proof {
            use_type_invariant(&index);
            index.lemma_in_range();
            lemma_clue_keeps(self@.facts, index.value());
        }
        if self.units.get(index) != 0 {
            return ;
        }
        proof {
            reveal(Facts::force);
            use_type_invariant(&index);
            index.lemma_in_range();
            lemma_force(self@.facts, index.value(), true);
            lemma_clue(self@.facts, index.value());
        }
        self.units.assign(index.triple());
        proof {
            let before = old(self)@;
            let after = self@;
            assert(after.pool =~= before.pool);
            assert(after.starts =~= before.starts);
            assert(after.facts.pending);
            assert forall|i: int| 0 <= i < after.starts.len() implies after.starts[i] + 2
                <= #[trigger] after.end(i) <= after.pool.len() by {
                assert(before.starts[i] + 2 <= before.end(i));
                assert(after.end(i) == before.end(i));
            }
        }
    }

    /// Advances the random stream by one step and gives the number below
    /// `limit` that the new state selects: the state times `limit`, divided
    /// by 2 to the 32.
    pub fn randint(&mut self, limit: usize) -> (r: u16)
        requires
            limit <= 0x10000,
        ensures
            final(self)@ == old(self)@.stepped(),
            r == scale(xorshift(old(self)@.rng), limit as int),
            0 < limit ==> r < limit,
    {
        let mut x: u32 = self.lfsr;
        x ^= x << 13;
        x ^= x >> 17;
        x ^= x << 5;
        self.lfsr = x;
        let wide: u64 = x as u64;
        let bound: u64 = limit as u64;
        assert(wide * bound <= 0xffff_ffff * 0x10000 && (0 < bound ==> wide * bound < 0x1_0000_0000
            * bound)) by (nonlinear_arith)
            requires
                wide <= 0xffff_ffff,
                bound <= 0x10000,
        ;
        let product: u64 = wide * bound;
        assert(product >> 32 == product / 0x1_0000_0000) by (bit_vector);
        proof {
            assert(self@.pool =~= old(self)@.pool);
            assert(self@.starts =~= old(self)@.starts);
        }
        (product >> 32) as u16
    }

    /// Reduces the stored clauses for as long as new facts are pending and
    /// clauses remain. The first fault ends the work. Where the engine was
    /// fit for an exhaustive search, the one fault is the empty clause, which
    /// shows that the grid has no solution, and what is recorded is true of
    /// every solution.
    pub fn propagate(&mut self) -> (r: Result<(), Fault>)
        requires
            old(self)@.wf(),
        ensures
            outcome(final(self)@, r) == old(self)@.propagate(),
            final(self)@.wf(),
            final(self)@.facts.extends(old(self)@.facts),
            final(self)@.facts.marks == old(self)@.facts.marks,
            final(self)@.facts.depth == old(self)@.facts.depth,
            r is Ok ==> !final(self)@.facts.pending || final(self)@.starts.len() == 0,
            r is Ok && ready(old(self)@) ==> ready(final(self)@),
            fit(old(self)@) ==> sifts(old(self)@.facts, old(self)@.propagate()) && (r is Err
                ==> r == Err::<(), Fault>(Fault::EmptyClause)),
    {
        proof {
            lemma_extends_self(self@.facts);
            lemma_keeps_chain(self@.facts, self@.facts, self@.facts);
        }
        while self.units.pending() && self.next_clause != 0
            invariant
                old(self)@.wf(),
                self@.wf(),
                ready(old(self)@) ==> ready(self@),
                fit(old(self)@) ==> fit(self@) && keeps(old(self)@.facts, self@.facts),
                self@.propagate() == old(self)@.propagate(),
                self@.facts.extends(old(self)@.facts),
                self@.facts.marks == old(self)@.facts.marks,
                self@.facts.depth == old(self)@.facts.depth,
            decreases
                    VALUES - self@.facts.log.len() + if self@.facts.pending && self@.starts.len()
                        != 0 {
                        1int
                    } else {
                        0int
                    },
        {
            let ghost before = self@;
            let r = self.reduce_clauses();
            proof {
                lemma_extends_chain(old(self)@.facts, before.cleared().facts, self@.facts);
                if fit(old(self)@) {
                    if r is Ok {
                        lemma_keeps_chain(old(self)@.facts, before.facts, self@.facts);
                    } else {
                        lemma_keeps_unsat(old(self)@.facts, before.facts);
                    }
                }
            }
            if r.is_err() {
                return r;
            }
        }
        Ok(())
    }

    /// Searches for an assignment that satisfies every stored clause, and
    /// says whether it found one. The stored clauses are reduced for as long
    /// as new facts are pending. Then, if no clause is left, the store holds
    /// a solution. Else the place of the branch is marked, on the checkpoint
    /// stack where it has room; a stored literal is drawn at random and
    /// recorded as holding, and the search goes on. If that fails, the store
    /// is taken back to the mark, the complement of the literal is recorded,
    /// the clauses are generated anew, and the search goes on from there. A
    /// fault fails the search at that point.
    ///
    /// Whatever the outcome, the checkpoint stack is left as it was, and
    /// everything that was known before is still known. Where the engine was
    /// fit for a search, a search that succeeds leaves a solution in the
    /// store. Where the engine was fit for an exhaustive search, a search that
    /// fails shows that the grid has no solution.
    #[verifier::rlimit(60)]
    pub fn dpll(&mut self) -> (found: bool)
        requires
            old(self)@.wf(),
        ensures
            final(self)@ == old(self)@.search().puzzle,
            found == old(self)@.search().found,
            final(self)@.wf(),
            found ==> final(self)@.starts.len() == 0,
            found && ready(old(self)@) ==> solved(final(self)@.facts),
            !found && fit(old(self)@) ==> !satisfiable(old(self)@.facts),
            final(self)@.facts.extends(old(self)@.facts),
            final(self)@.facts.depth == old(self)@.facts.depth,
            forall|i: int|
                0 <= i < old(self)@.facts.depth ==> final(self)@.facts.marks[i] == old(
                    self,
                )@.facts.marks[i],
        decreases VALUES - old(self)@.facts.log.len(),
    {
        if self.propagate().is_err() {
            return false;
        }
        let ghost settled = self@;
        if self.next_clause == 0 {
            proof {
                if ready(settled) {
                    lemma_ready_solved(settled);
                }
            }
            return true;
        }
        proof {
            assert(settled.starts[0] + 2 <= settled.end(0));
        }
        let mark: usize = self.units.known();
        let pushed: bool = self.units.depth() < GRID;
        self.units.snapshot();
        let k = self.randint(self.next_literal);
        let literal = SmallIndex::<LITERALS>::new_unchecked(k).get(&self.literals);
        let (var, polarity) = literal.to_var();
        let value = polarity != 0;
        let ghost lit = literal.value();
        proof {
            assert(settled.starts[0] + 2 <= settled.end(0));
            assert(lit == settled.pool[k as int]);
            assert(lit == settled.drawn());
            assert(unknown(settled.facts, lit));
            lemma_extends_self(settled.facts.checkpoint());
            lemma_learn(settled.facts.checkpoint(), lit, settled.facts.checkpoint());
        }
        self.units.set(var, value);
        let ghost branch = self@;
        proof {
            assert(branch.pool =~= settled.pool);
            assert(branch.starts =~= settled.starts);
            assert(branch == settled.stepped().with_facts(
                settled.facts.checkpoint().learn(lit),
            ));
            assert(branch.facts.pending);
            assert forall|i: int| 0 <= i < branch.starts.len() implies branch.starts[i] + 2
                <= #[trigger] branch.end(i) <= branch.pool.len() by {
                assert(settled.starts[i] + 2 <= settled.end(i));
                assert(branch.end(i) == settled.end(i));
            }
            assert(branch.facts.extends(settled.facts));
            lemma_extends_chain(old(self)@.facts, settled.facts, branch.facts);
            if ready(settled) {
                lemma_branch_ready(settled, lit, branch);
            }
            if fit(old(self)@) {
                lemma_branch_fit(settled, lit, branch);
            }
        }
        if self.dpll() {
            let ghost first = self@;
            if pushed {
                self.units.drop_snapshot();
            }
            proof {
                assert(self@.pool =~= first.pool);
                assert(self@.starts =~= first.starts);
                lemma_extends_chain(old(self)@.facts, branch.facts, first.facts);
                assert forall|i: int| 0 <= i < self@.starts.len() implies self@.starts[i] + 2
                    <= #[trigger] self@.end(i) <= self@.pool.len() by {
                }
                if ready(old(self)@) {
                    lemma_same_words_solved(first.facts, self@.facts);
                }
            }
            return true;
        }
        let ghost first = self@;
        proof {
            lemma_extends_chain(settled.facts, branch.facts, first.facts);
        }
        if pushed {
            proof {
                assert(first.facts.marks[first.facts.depth - 1] == settled.facts.log.len());
            }
            self.units.rollback();
        } else {
            self.units.retract(mark);
        }
        let ghost restored = self@.facts;
        proof {
            assert(restored.words == settled.facts.words);
            assert(restored.log =~= settled.facts.log);
            lemma_extends_self(restored);
            lemma_learn(restored, complement(lit), restored);
            lemma_extends_chain(old(self)@.facts, settled.facts, restored);
            lemma_learn(restored, complement(lit), old(self)@.facts);
        }
        self.units.set(var, !value);
        let ghost turned = self@;
        proof {
            assert(turned.pool =~= first.pool);
            assert(turned.starts =~= first.starts);
            assert(turned.facts.pending);
            assert forall|i: int| 0 <= i < turned.starts.len() implies turned.starts[i] + 2
                <= #[trigger] turned.end(i) <= turned.pool.len() by {
                assert(first.starts[i] + 2 <= first.end(i));
                assert(turned.end(i) == first.end(i));
            }
        }
        let r = self.generate_clauses();
        proof {
            lemma_extends_chain(old(self)@.facts, turned.cleared().facts, self@.facts);
            if r is Ok && ready(settled) {
                lemma_turn_ready(settled.facts, restored, lit, turned);
            }
            if fit(old(self)@) && r is Err {
                lemma_branch_exhausted(old(self)@.facts, settled.facts, restored, lit);
            }
        }
        if r.is_err() {
            return false;
        }
        let ghost regenerated = self@;
        let found = self.dpll();
        proof {
            lemma_extends_chain(old(self)@.facts, regenerated.facts, self@.facts);
            if fit(old(self)@) && !found {
                lemma_keeps_unsat(turned.facts, regenerated.facts);
                lemma_branch_exhausted(old(self)@.facts, settled.facts, restored, lit);
            }
        }
        found
    }

    /// Replaces what the store holds by the clues of a puzzle: the placements
    /// that the last search had to decide on. For each slot of the checkpoint
    /// stack, the log entry at the recorded position is taken, where there is
    /// one; a positive literal among them is placed in a store that starts
    /// empty. The clause store is emptied.
    pub fn generate_instance(&mut self)
        requires
            old(self)@.wf(),
        ensures
            final(self)@ == old(self)@.clues(),
            final(self)@.wf(),
    {
        let mut solved = Units::new();
        core::mem::swap(&mut self.units, &mut solved);
        self.next_literal = 0;
        self.next_clause = 0;
        let mut slot: usize = 0;
        while slot < GRID
            invariant
                slot <= GRID,
                solved@ == old(self)@.facts,
                solved@.wf(),
                self.units@ == Puzzle::decisions(solved@, slot as int),
                self.units@.wf(),
                self.next_literal == 0,
                self.next_clause == 0,
                self.lfsr == old(self).lfsr,
            decreases GRID - slot,
        {
            let pos = solved.mark(slot);
            if pos < solved.known() {
                let (var, polarity) = solved.logged(pos).to_var();
                if polarity != 0 {
                    self.units.set_false_or_assign(var, true);
                }
            }
            slot += 1;
        }
        proof {
            assert(self@.pool =~= Seq::<int>::empty());
            assert(self@.starts =~= Seq::<int>::empty());
        }
    }

    /// How many literals the literal pool holds.
    pub fn literals_count(&self) -> (r: usize)
        ensures
            r == self@.pool.len(),
    {
        self.next_literal
    }

    /// How many clauses are stored.
    pub fn clauses_count(&self) -> (r: usize)
        ensures
            r == self@.starts.len(),
    {
        self.next_clause
    }

    /// The literal at position `k` of the literal pool.
    pub fn literal(&self, k: usize) -> (r: SmallIndex<VALUES>)
        requires
            self@.wf(),
            k < self@.pool.len(),
        ensures
            r.value() == self@.pool[k as int],
    {
        self.literals[k]
    }

    /// The position in the literal pool at which stored clause `i` starts.
    pub fn clause_start(&self, i: usize) -> (r: usize)
        requires
            self@.wf(),
            i < self@.starts.len(),
        ensures
            r == self@.starts[i as int],
    {
        self.clauses[i].raw() as usize
    }

    /// The state of the random stream.
    pub fn seed(&self) -> (r: u32)
        ensures
            r == self@.rng,
    {
        self.lfsr
    }

    /// Whether facts were recorded that the stored clauses have not been
    /// reduced by.
    pub fn new_units_pending(&self) -> (r: bool)
        ensures
            r == self@.facts.pending,
    {
        self.units.pending()
    }

    /// The assignment store.
    pub fn units(&self) -> (r: &Units)
        ensures
            r@ == self@.facts,
    {
        &self.units
    }
}

} // verus!
