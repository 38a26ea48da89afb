//! The generator of the clauses: for each group of nine variables one clause
//! that says that a member holds, and one for each pair of members that says
//! that they do not both hold.
use vstd::prelude::*;
use crate::facts::{lemma_extends_self, lemma_follows_chain};
use crate::groups::{block_group, cell_group, column_group, index, is, not, row_group};
use crate::puzzle::{
    advances, definedness, group_of, lemma_pairs_among_nine, lemma_stopped_define_family,
    lemma_stopped_separate, lemma_stopped_separate_family, lemma_stopped_separate_from,
    outcome, pairs_among, uniqueness, Family, Fault, Puzzle, Run,
};
use crate::smallindex::{values, SmallIndex};
use crate::complete::{lemma_generate_sifts, sifts};
use crate::sound::{coherent, lemma_generate_ready, ready};
use crate::sudoku::Sudoku;
use crate::{CLAUSES, LITERALS, N, VALUES, VARS};

verus! {

/// The nine candidate digits of a cell.
pub fn cell_vars(row: SmallIndex<N>, column: SmallIndex<N>) -> (r: [SmallIndex<VARS>; 9])
    ensures
        values(r@) == cell_group(row.value(), column.value()),
{
    let mut group: [SmallIndex<VARS>; 9] = SmallIndex::array();
    let mut i: u16 = 0;
    while i < 9
        invariant
            i <= 9,
            forall|k: int|
                0 <= k < i ==> (#[trigger] group[k]).value() == cell_group(
                    row.value(),
                    column.value(),
                )[k],
        decreases 9 - i,
    {
        group[i as usize] = index(row, column, SmallIndex::new_unchecked(i));
        i += 1;
    }
    proof {
        assert(values(group@) =~= cell_group(row.value(), column.value()));
    }
    group
}

/// The nine places of a digit in a row.
pub fn row_vars(row: SmallIndex<N>, value: SmallIndex<N>) -> (r: [SmallIndex<VARS>; 9])
    ensures
        values(r@) == row_group(row.value(), value.value()),
{
    let mut group: [SmallIndex<VARS>; 9] = SmallIndex::array();
    let mut i: u16 = 0;
    while i < 9
        invariant
            i <= 9,
            forall|k: int|
                0 <= k < i ==> (#[trigger] group[k]).value() == row_group(
                    row.value(),
                    value.value(),
                )[k],
        decreases 9 - i,
    {
        group[i as usize] = index(row, SmallIndex::new_unchecked(i), value);
        i += 1;
    }
    proof {
        assert(values(group@) =~= row_group(row.value(), value.value()));
    }
    group
}

/// The nine places of a digit in a column.
pub fn column_vars(column: SmallIndex<N>, value: SmallIndex<N>) -> (r: [SmallIndex<VARS>; 9])
    ensures
        values(r@) == column_group(column.value(), value.value()),
{
    let mut group: [SmallIndex<VARS>; 9] = SmallIndex::array();
    let mut i: u16 = 0;
    while i < 9
        invariant
            i <= 9,
            forall|k: int|
                0 <= k < i ==> (#[trigger] group[k]).value() == column_group(
                    column.value(),
                    value.value(),
                )[k],
        decreases 9 - i,
    {
        group[i as usize] = index(SmallIndex::new_unchecked(i), column, value);
        i += 1;
    }
    proof {
        assert(values(group@) =~= column_group(column.value(), value.value()));
    }
    group
}

/// The nine places of a digit in the three rows from `block_row` and the
/// three columns from `block_column`, row by row.
pub fn block_vars(
    block_row: SmallIndex<N>,
    block_column: SmallIndex<N>,
    value: SmallIndex<N>,
) -> (r: [SmallIndex<VARS>; 9])
    requires
        block_row.value() <= 6,
        block_column.value() <= 6,
    ensures
        values(r@) == block_group(block_row.value(), block_column.value(), value.value()),
{
    let mut group: [SmallIndex<VARS>; 9] = SmallIndex::array();
    let top: u16 = block_row.raw();
    let left: u16 = block_column.raw();
    let mut i: u16 = 0;
    while i < 9
        invariant
            i <= 9,
            top == block_row.value(),
            left == block_column.value(),
            top <= 6,
            left <= 6,
            forall|k: int|
                0 <= k < i ==> (#[trigger] group[k]).value() == block_group(
                    block_row.value(),
                    block_column.value(),
                    value.value(),
                )[k],
        decreases 9 - i,
    {
        group[i as usize] = index(
            SmallIndex::new_unchecked(top + i / 3),
            SmallIndex::new_unchecked(left + i % 3),
            value,
        );
        i += 1;
    }
    proof {
        assert(values(group@) =~= block_group(
            block_row.value(),
            block_column.value(),
            value.value(),
        ));
    }
    group
}

impl Sudoku {
    /// Submits the clause that says that one member of `group` holds.
    pub fn define(&mut self, group: &[SmallIndex<VARS>; 9]) -> (r: Result<(), Fault>)
        requires
            old(self)@.wf(),
        ensures
            outcome(final(self)@, r) == Run::ok(old(self)@).define(values(group@)),
            advances(old(self)@, final(self)@, r, 9, 1),
    {
        let mut clause: [SmallIndex<VALUES>; 9] = SmallIndex::array();
        let mut i: usize = 0;
        while i < 9
            invariant
                i <= 9,
                forall|k: int|
                    0 <= k < i ==> (#[trigger] clause[k]).value() == definedness(values(group@))[k],
            decreases 9 - i,
        {
            clause[i] = is(group[i]);
            i += 1;
        }
        proof {
            assert(values(clause@) =~= definedness(values(group@)));
        }
        self.try_insert(&clause)
    }

    /// Submits, for every pair of members of `group`, the clause that says
    /// that they do not both hold: for each member in turn, its pairs with
    /// the members before it. The first fault ends the work.
    pub fn separate(&mut self, group: &[SmallIndex<VARS>; 9]) -> (r: Result<(), Fault>)
        requires
            old(self)@.wf(),
        ensures
            outcome(final(self)@, r) == Run::ok(old(self)@).separate(values(group@), 9),
            advances(old(self)@, final(self)@, r, 72, 36),
    {
        let ghost start = Run::ok(self@);
        let ghost members = values(group@);
        proof {
            lemma_extends_self(self@.facts);
            lemma_pairs_among_nine();
        }
        let mut high: usize = 0;
        while high < 9
            invariant
                high <= 9,
                start == Run::ok(old(self)@),
                members == values(group@),
                old(self)@.wf(),
                outcome(self@, Ok(())) == start.separate(members, high as int),
                self@.wf(),
                self@.facts.follows(old(self)@.facts),
                self@.rng == old(self)@.rng,
                self@.pool.len() <= old(self)@.pool.len() + 2 * pairs_among(high as int),
                self@.starts.len() <= old(self)@.starts.len() + pairs_among(high as int),
                pairs_among(9) == 36,
                forall|n: int| 0 <= n < 9 ==> #[trigger] pairs_among(n) + n <= 36,
            decreases 9 - high,
        {
            let ghost row_start = start.separate(members, high as int);
            let mut low: usize = 0;
            while low < high
                invariant
                    low <= high < 9,
                    start == Run::ok(old(self)@),
                    members == values(group@),
                    old(self)@.wf(),
                    row_start == start.separate(members, high as int),
                    outcome(self@, Ok(())) == row_start.separate_from(
                        members,
                        high as int,
                        low as int,
                    ),
                    self@.wf(),
                    self@.facts.follows(old(self)@.facts),
                    self@.rng == old(self)@.rng,
                    self@.pool.len() <= old(self)@.pool.len() + 2 * pairs_among(high as int) + 2
                        * low,
                    self@.starts.len() <= old(self)@.starts.len() + pairs_among(high as int) + low,
                    pairs_among(9) == 36,
                    forall|n: int| 0 <= n < 9 ==> #[trigger] pairs_among(n) + n <= 36,
                decreases high - low,
            {
                let clause: [SmallIndex<VALUES>; 2] = [not(group[low]), not(group[high])];
                let ghost before = self@;
                proof {
                    assert(values(clause@) =~= uniqueness(members, low as int, high as int));
                    assert(pairs_among(high as int) + high <= 36);
                }
                let r = self.try_insert(&clause);
                proof {
                    lemma_follows_chain(old(self)@.facts, before.facts, self@.facts);
                }
                if r.is_err() {
                    proof {
                        let stopped = row_start.separate_from(members, high as int, low + 1);
                        assert(stopped == outcome(self@, r));
                        lemma_stopped_separate_from(
                            row_start,
                            members,
                            high as int,
                            low + 1,
                            high as int,
                        );
                        assert(start.separate(members, high + 1) == stopped);
                        lemma_stopped_separate(start, members, high + 1, 9);
                    }
                    return r;
                }
                low += 1;
            }
            high += 1;
        }
        Ok(())
    }

    /// Submits the clause that says that the cell holds a digit.
    pub fn cell_definedness(&mut self, row: SmallIndex<N>, column: SmallIndex<N>) -> (r: Result<
        (),
        Fault,
    >)
        requires
            old(self)@.wf(),
        ensures
            outcome(final(self)@, r) == Run::ok(old(self)@).define(
                cell_group(row.value(), column.value()),
            ),
            advances(old(self)@, final(self)@, r, 9, 1),
    {
        let group = cell_vars(row, column);
        self.define(&group)
    }

    /// Submits the clauses that say that the cell holds no two digits.
    pub fn cell_uniqueness(&mut self, row: SmallIndex<N>, column: SmallIndex<N>) -> (r: Result<
        (),
        Fault,
    >)
        requires
            old(self)@.wf(),
        ensures
            outcome(final(self)@, r) == Run::ok(old(self)@).separate(
                cell_group(row.value(), column.value()),
                9,
            ),
            advances(old(self)@, final(self)@, r, 72, 36),
    {
        let group = cell_vars(row, column);
        self.separate(&group)
    }

    /// Submits the clause that says that the row holds the digit somewhere.
    pub fn row_definedness(&mut self, row: SmallIndex<N>, value: SmallIndex<N>) -> (r: Result<
        (),
        Fault,
    >)
        requires
            old(self)@.wf(),
        ensures
            outcome(final(self)@, r) == Run::ok(old(self)@).define(
                row_group(row.value(), value.value()),
            ),
            advances(old(self)@, final(self)@, r, 9, 1),
    {
        let group = row_vars(row, value);
        self.define(&group)
    }

    /// Submits the clauses that say that the row holds the digit in no two
    /// places.
    pub fn row_uniqueness(&mut self, row: SmallIndex<N>, value: SmallIndex<N>) -> (r: Result<
        (),
        Fault,
    >)
        requires
            old(self)@.wf(),
        ensures
            outcome(final(self)@, r) == Run::ok(old(self)@).separate(
                row_group(row.value(), value.value()),
                9,
            ),
            advances(old(self)@, final(self)@, r, 72, 36),
    {
        let group = row_vars(row, value);
        self.separate(&group)
    }

    /// Submits the clause that says that the column holds the digit
    /// somewhere.
    pub fn column_definedness(&mut self, column: SmallIndex<N>, value: SmallIndex<N>) -> (r:
        Result<(), Fault>)
        requires
            old(self)@.wf(),
        ensures
            outcome(final(self)@, r) == Run::ok(old(self)@).define(
                column_group(column.value(), value.value()),
            ),
            advances(old(self)@, final(self)@, r, 9, 1),
    {
        let group = column_vars(column, value);
        self.define(&group)
    }

    /// Submits the clauses that say that the column holds the digit in no two
    /// places.
    pub fn column_uniqueness(&mut self, column: SmallIndex<N>, value: SmallIndex<N>) -> (r: Result<
        (),
        Fault,
    >)
        requires
            old(self)@.wf(),
        ensures
            outcome(final(self)@, r) == Run::ok(old(self)@).separate(
                column_group(column.value(), value.value()),
                9,
            ),
            advances(old(self)@, final(self)@, r, 72, 36),
    {
        let group = column_vars(column, value);
        self.separate(&group)
    }

    /// Submits the clause that says that the block whose upper left cell is
    /// at `block_row` and `block_column` holds the digit somewhere.
    pub fn block_definedness(
        &mut self,
        block_row: SmallIndex<N>,
        block_column: SmallIndex<N>,
        value: SmallIndex<N>,
    ) -> (r: Result<(), Fault>)
        requires
            old(self)@.wf(),
            block_row.value() <= 6,
            block_column.value() <= 6,
        ensures
            outcome(final(self)@, r) == Run::ok(old(self)@).define(
                block_group(block_row.value(), block_column.value(), value.value()),
            ),
            advances(old(self)@, final(self)@, r, 9, 1),
    {
        let group = block_vars(block_row, block_column, value);
        self.define(&group)
    }

    /// Submits the clauses that say that the block whose upper left cell is
    /// at `block_row` and `block_column` holds the digit in no two places.
    pub fn block_uniqueness(
        &mut self,
        block_row: SmallIndex<N>,
        block_column: SmallIndex<N>,
        value: SmallIndex<N>,
    ) -> (r: Result<(), Fault>)
        requires
            old(self)@.wf(),
            block_row.value() <= 6,
            block_column.value() <= 6,
        ensures
            outcome(final(self)@, r) == Run::ok(old(self)@).separate(
                block_group(block_row.value(), block_column.value(), value.value()),
                9,
            ),
            advances(old(self)@, final(self)@, r, 72, 36),
    {
        let group = block_vars(block_row, block_column, value);
        self.separate(&group)
    }

    /// Submits the definedness clause of each of the 81 groups of `family`,
    /// in order. The first fault ends the work.
    pub fn define_family(&mut self, family: Family) -> (r: Result<(), Fault>)
        requires
            old(self)@.wf(),
        ensures
            outcome(final(self)@, r) == Run::ok(old(self)@).define_family(family, 81),
            advances(old(self)@, final(self)@, r, 729, 81),
    {
        let ghost start = Run::ok(self@);
        proof {
            lemma_extends_self(self@.facts);
        }
        let mut k: u16 = 0;
        while k < 81
            invariant
                k <= 81,
                start == Run::ok(old(self)@),
                old(self)@.wf(),
                outcome(self@, Ok(())) == start.define_family(family, k as int),
                self@.wf(),
                self@.facts.follows(old(self)@.facts),
                self@.rng == old(self)@.rng,
                self@.pool.len() <= old(self)@.pool.len() + 9 * k,
                self@.starts.len() <= old(self)@.starts.len() + k,
            decreases 81 - k,
        {
            let ghost before = self@;
            reveal(group_of);
            let r = match family {
                Family::Cell => self.cell_definedness(
                    SmallIndex::new_unchecked(k / 9),
                    SmallIndex::new_unchecked(k % 9),
                ),
                Family::Row => self.row_definedness(
                    SmallIndex::new_unchecked(k / 9),
                    SmallIndex::new_unchecked(k % 9),
                ),
                Family::Column => self.column_definedness(
                    SmallIndex::new_unchecked(k / 9),
                    SmallIndex::new_unchecked(k % 9),
                ),
                Family::Block => self.block_definedness(
                    SmallIndex::new_unchecked(3 * (k / 27)),
                    SmallIndex::new_unchecked(3 * (k / 9 % 3)),
                    SmallIndex::new_unchecked(k % 9),
                ),
            };
            proof {
                lemma_follows_chain(old(self)@.facts, before.facts, self@.facts);
                assert(outcome(self@, r) == start.define_family(family, k + 1));
            }
            if r.is_err() {
                proof {
                    lemma_stopped_define_family(start, family, k + 1, 81);
                }
                return r;
            }
            k += 1;
        }
        Ok(())
    }

    /// Submits the uniqueness clauses of each of the 81 groups of `family`,
    /// in order. The first fault ends the work.
    pub fn separate_family(&mut self, family: Family) -> (r: Result<(), Fault>)
        requires
            old(self)@.wf(),
        ensures
            outcome(final(self)@, r) == Run::ok(old(self)@).separate_family(family, 81),
            advances(old(self)@, final(self)@, r, 5832, 2916),
    {
        let ghost start = Run::ok(self@);
        proof {
            lemma_extends_self(self@.facts);
        }
        let mut k: u16 = 0;
        while k < 81
            invariant
                k <= 81,
                start == Run::ok(old(self)@),
                old(self)@.wf(),
                outcome(self@, Ok(())) == start.separate_family(family, k as int),
                self@.wf(),
                self@.facts.follows(old(self)@.facts),
                self@.rng == old(self)@.rng,
                self@.pool.len() <= old(self)@.pool.len() + 72 * k,
                self@.starts.len() <= old(self)@.starts.len() + 36 * k,
            decreases 81 - k,
        {
            let ghost before = self@;
            reveal(group_of);
            let r = match family {
                Family::Cell => self.cell_uniqueness(
                    SmallIndex::new_unchecked(k / 9),
                    SmallIndex::new_unchecked(k % 9),
                ),
                Family::Row => self.row_uniqueness(
                    SmallIndex::new_unchecked(k / 9),
                    SmallIndex::new_unchecked(k % 9),
                ),
                Family::Column => self.column_uniqueness(
                    SmallIndex::new_unchecked(k / 9),
                    SmallIndex::new_unchecked(k % 9),
                ),
                Family::Block => self.block_uniqueness(
                    SmallIndex::new_unchecked(3 * (k / 27)),
                    SmallIndex::new_unchecked(3 * (k / 9 % 3)),
                    SmallIndex::new_unchecked(k % 9),
                ),
            };
            proof {
                lemma_follows_chain(old(self)@.facts, before.facts, self@.facts);
                assert(outcome(self@, r) == start.separate_family(family, k + 1));
            }
            if r.is_err() {
                proof {
                    lemma_stopped_separate_family(start, family, k + 1, 81);
                }
                return r;
            }
            k += 1;
        }
        Ok(())
    }

    /// Builds the clause store anew against the store of facts as it stands:
    /// the definedness clauses of cells, rows, columns and blocks, then the
    /// uniqueness clauses in the same order, each submitted as it is made.
    /// The pools always have room; the one fault that can end the work is a
    /// clause whose literals are all known to be false, which shows that the
    /// grid has no solution. Where the work ends without a fault, what is
    /// recorded is true of every solution of the grid, and the clauses stored
    /// say nothing more than the rules and the store.
    pub fn generate_clauses(&mut self) -> (r: Result<(), Fault>)
        requires
            old(self)@.wf(),
        ensures
            outcome(final(self)@, r) == old(self)@.generate(),
            advances(old(self)@.cleared(), final(self)@, r, LITERALS as int, CLAUSES as int),
            r is Err ==> r == Err::<(), Fault>(Fault::EmptyClause),
            r is Ok && coherent(old(self)@.facts) ==> ready(final(self)@),
            sifts(old(self)@.facts, old(self)@.generate()),
    {
        let r = self.generate_all();
        proof {
            if coherent(old(self)@.facts) && r is Ok {
                lemma_generate_ready(old(self)@);
            }
            lemma_generate_sifts(old(self)@);
        }
        r
    }

    /// Builds the clause store anew, family by family.
    fn generate_all(&mut self) -> (r: Result<(), Fault>)
        requires
            old(self)@.wf(),
        ensures
            outcome(final(self)@, r) == old(self)@.generate(),
            advances(old(self)@.cleared(), final(self)@, r, LITERALS as int, CLAUSES as int),
            r is Err ==> r == Err::<(), Fault>(Fault::EmptyClause),
    {
        reveal(Puzzle::generate);
        self.clear();
        let ghost s0 = Run::ok(self@);
        let ghost f0 = self@.facts;
        let r = self.define_family(Family::Cell);
        let ghost s1 = s0.define_family(Family::Cell, 81);
        let ghost f1 = self@.facts;
        if r.is_err() {
            proof {
                lemma_stopped_define_family(s1, Family::Row, 0, 81);
                lemma_stopped_define_family(s1, Family::Column, 0, 81);
                lemma_stopped_define_family(s1, Family::Block, 0, 81);
                lemma_stopped_separate_family(s1, Family::Cell, 0, 81);
                lemma_stopped_separate_family(s1, Family::Row, 0, 81);
                lemma_stopped_separate_family(s1, Family::Column, 0, 81);
                lemma_stopped_separate_family(s1, Family::Block, 0, 81);
            }
            return r;
        }
        let r = self.define_family(Family::Row);
        let ghost s2 = s1.define_family(Family::Row, 81);
        let ghost f2 = self@.facts;
        proof {
            lemma_follows_chain(f0, f1, f2);
        }
        if r.is_err() {
            proof {
                lemma_stopped_define_family(s2, Family::Column, 0, 81);
                lemma_stopped_define_family(s2, Family::Block, 0, 81);
                lemma_stopped_separate_family(s2, Family::Cell, 0, 81);
                lemma_stopped_separate_family(s2, Family::Row, 0, 81);
                lemma_stopped_separate_family(s2, Family::Column, 0, 81);
                lemma_stopped_separate_family(s2, Family::Block, 0, 81);
            }
            return r;
        }
        let r = self.define_family(Family::Column);
        let ghost s3 = s2.define_family(Family::Column, 81);
        let ghost f3 = self@.facts;
        proof {
            lemma_follows_chain(f0, f2, f3);
        }
        if r.is_err() {
            proof {
                lemma_stopped_define_family(s3, Family::Block, 0, 81);
                lemma_stopped_separate_family(s3, Family::Cell, 0, 81);
                lemma_stopped_separate_family(s3, Family::Row, 0, 81);
                lemma_stopped_separate_family(s3, Family::Column, 0, 81);
                lemma_stopped_separate_family(s3, Family::Block, 0, 81);
            }
            return r;
        }
        let r = self.define_family(Family::Block);
        let ghost s4 = s3.define_family(Family::Block, 81);
        let ghost f4 = self@.facts;
        proof {
            lemma_follows_chain(f0, f3, f4);
        }
        if r.is_err() {
            proof {
                lemma_stopped_separate_family(s4, Family::Cell, 0, 81);
                lemma_stopped_separate_family(s4, Family::Row, 0, 81);
                lemma_stopped_separate_family(s4, Family::Column, 0, 81);
                lemma_stopped_separate_family(s4, Family::Block, 0, 81);
            }
            return r;
        }
        let r = self.separate_family(Family::Cell);
        let ghost s5 = s4.separate_family(Family::Cell, 81);
        let ghost f5 = self@.facts;
        proof {
            lemma_follows_chain(f0, f4, f5);
        }
        if r.is_err() {
            proof {
                lemma_stopped_separate_family(s5, Family::Row, 0, 81);
                lemma_stopped_separate_family(s5, Family::Column, 0, 81);
                lemma_stopped_separate_family(s5, Family::Block, 0, 81);
            }
            return r;
        }
        let r = self.separate_family(Family::Row);
        let ghost s6 = s5.separate_family(Family::Row, 81);
        let ghost f6 = self@.facts;
        proof {
            lemma_follows_chain(f0, f5, f6);
        }
        if r.is_err() {
            proof {
                lemma_stopped_separate_family(s6, Family::Column, 0, 81);
                lemma_stopped_separate_family(s6, Family::Block, 0, 81);
            }
            return r;
        }
        let r = self.separate_family(Family::Column);
        let ghost s7 = s6.separate_family(Family::Column, 81);
        let ghost f7 = self@.facts;
        proof {
            lemma_follows_chain(f0, f6, f7);
        }
        if r.is_err() {
            proof {
                lemma_stopped_separate_family(s7, Family::Block, 0, 81);
            }
            return r;
        }
        let r = self.separate_family(Family::Block);
        proof {
            lemma_follows_chain(f0, f7, self@.facts);
        }
        r
    }
}

} // verus!
