//! The assignment store: the truth values of all variables, packed two bits
//! per variable, with the log of what became known and the checkpoints that
//! make it possible to take a part of that log back.
use vstd::prelude::*;
use crate::facts::{
    bit, consistent, lemma_consistent_pop, lemma_consistent_push, lemma_with_bit,
    lemma_word_bits, lemma_word_crumb, unwind, without_bit, Facts,
};
use crate::groups::{block_group, cell_group, column_group, index, row_group};
use crate::smallindex::SmallIndex;
use crate::{GRID, MARKS, N, UNITS, VALUES, VARS};

verus! {

/// The assignment store.
pub struct Units {
    raw: [u32; UNITS],
    log: [SmallIndex<VALUES>; VALUES],
    cursor: [SmallIndex<MARKS>; GRID],
    next_cursor: usize,
    next_log: usize,
    new_units: bool,
}

impl View for Units {
    type V = Facts;

    closed spec fn view(&self) -> Facts {
        Facts {
            words: self.raw@,
            log: Seq::new(self.next_log as nat, |i: int| self.log[i].value()),
            marks: Seq::new(GRID as nat, |i: int| self.cursor[i].value()),
            depth: self.next_cursor as int,
            pending: self.new_units,
        }
    }
}

impl Units {
    /// The store in which nothing is known.
    pub fn new() -> (r: Self)
        ensures
            r@ == Facts::empty(),
            r@.wf(),
    {
        let r = Self {
            raw: [0; UNITS],
            log: SmallIndex::array(),
            cursor: SmallIndex::array(),
            next_cursor: 0,
            next_log: 0,
            new_units: false,
        };
        proof {
            assert(r@.words =~= Facts::empty().words);
            assert(r@.log =~= Facts::empty().log);
            assert(r@.marks =~= Facts::empty().marks);
            assert forall|lit: int| 0 <= lit < 32 * UNITS
                implies !#[trigger] bit(r@.words, lit) by {
                lemma_word_bits(0u32, 0u32, (lit % 32) as u32);
            }
        }
        r
    }

    /// Records that variable `index` has truth value `value`. A literal that
    /// was not known before is appended to the log and raises the flag.
    pub fn set(&mut self, index: SmallIndex<VARS>, value: bool)
        requires
            old(self)@.wf(),
        ensures
            final(self)@ == old(self)@.set(index.value(), value),
            final(self)@.wf(),
    {
        let literal = index.from_var(
            if value {
                1
            } else {
                0
            },
        );
        let (word, place) = literal.raw_bit();
        let shift: u32 = place as u32;
        let mask: u32 = 1u32 << shift;
        let before: u32 = word.get(&self.raw);
        proof {
            use_type_invariant(&index);
            index.lemma_in_range();
            lemma_word_bits(before, shift, shift);
            lemma_with_bit(self@.words, literal.value(), literal.value());
            if !bit(self@.words, literal.value()) {
                lemma_consistent_push(self@.words, self@.log, literal.value());
            }
        }
        if before & mask == 0 {
            self.log[self.next_log] = literal;
            self.next_log += 1;
            self.new_units = true;
        }
        *word.get_mut(&mut self.raw) = before | mask;
        proof {
            let after = old(self)@.set(index.value(), value);
            assert(self@.words =~= after.words);
            assert(self@.log =~= after.log);
            assert(self@.marks =~= after.marks);
        }
    }

    /// The two-bit code of variable `index`: 0 unknown, 1 known false, 2 known
    /// true, 3 both recorded.
    pub fn get(&self, index: SmallIndex<VARS>) -> (r: u32)
        ensures
            r == self@.code(index.value()),
    {
        let (word, crumb) = index.raw_crumb();
        let shift: u32 = (crumb * 2) as u32;
        let w: u32 = word.get(&self.raw);
        proof {
            lemma_word_crumb(w, shift, (shift + 1) as u32);
        }
        (w >> shift) & 3
    }

    /// Pushes the current length of the log on the checkpoint stack. A stack
    /// that already holds one checkpoint per cell stays as it is.
    pub fn snapshot(&mut self)
        requires
            old(self)@.wf(),
        ensures
            final(self)@ == old(self)@.checkpoint(),
            final(self)@.wf(),
    {
        if self.next_cursor >= GRID {
            return ;
        }
        self.cursor[self.next_cursor] = SmallIndex::new_unchecked(self.next_log as u16);
        self.next_cursor += 1;
        proof {
            let after = old(self)@.checkpoint();
            assert(self@.words =~= after.words);
            assert(self@.log =~= after.log);
            assert(self@.marks =~= after.marks);
        }
    }

    /// Drops the top of the checkpoint stack and keeps everything known.
    pub fn drop_snapshot(&mut self)
        requires
            old(self)@.wf(),
        ensures
            final(self)@ == old(self)@.discard(),
            final(self)@.wf(),
    {
        if self.next_cursor == 0 {
            return ;
        }
        self.next_cursor -= 1;
        proof {
            let after = old(self)@.discard();
            assert(self@.words =~= after.words);
            assert(self@.log =~= after.log);
            assert(self@.marks =~= after.marks);
        }
    }

    /// Withdraws every literal that was recorded from position `pos` of the
    /// log on, the last first: its bit is cleared and it leaves the log. The
    /// checkpoint stack stays as it is.
    pub fn retract(&mut self, pos: usize)
        requires
            old(self)@.wf(),
        ensures
            final(self)@ == old(self)@.retract(pos as int),
            final(self)@.wf(),
    {
        while self.next_log > pos
            invariant
                self.next_log <= old(self).next_log,
                pos <= self.next_log || self.next_log == old(self).next_log,
                self.log == old(self).log,
                self.cursor == old(self).cursor,
                self.new_units == old(self).new_units,
                self.next_cursor == old(self).next_cursor,
                consistent(self@.words, self@.log),
                self@.log == old(self)@.log.take(self.next_log as int),
                unwind(self@.words, self@.log, pos as int) == unwind(
                    old(self)@.words,
                    old(self)@.log,
                    pos as int,
                ),
                old(self)@.wf(),
            decreases self.next_log,
        {
            let ghost words = self@.words;
            let ghost log = self@.log;
            self.next_log -= 1;
            let literal = self.log[self.next_log];
            let (word, place) = literal.raw_bit();
            let before: u32 = word.get(&self.raw);
            *word.get_mut(&mut self.raw) = before & !(1u32 << (place as u32));
            proof {
                assert(log.last() == literal.value());
                lemma_consistent_pop(words, log);
                assert(self@.log =~= log.drop_last());
                assert(self@.words =~= without_bit(words, log.last()));
                assert(self@.log =~= old(self)@.log.take(self.next_log as int));
            }
        }
        proof {
            let after = old(self)@.retract(pos as int);
            assert(self@.log =~= old(self)@.log.take(old(self)@.log.len() as int)
                || self.next_log == pos);
            assert(self@.words =~= after.words);
            assert(self@.log =~= after.log);
            assert(self@.marks =~= after.marks);
        }
    }

    /// Pops the top of the checkpoint stack and withdraws every literal that
    /// was recorded since that checkpoint.
    pub fn rollback(&mut self)
        requires
            old(self)@.wf(),
        ensures
            final(self)@ == old(self)@.rollback(),
            final(self)@.wf(),
    {
        if self.next_cursor == 0 {
            return ;
        }
        self.next_cursor -= 1;
        let snapshot: usize = self.cursor[self.next_cursor].raw() as usize;
        proof {
            assert(self@.words =~= old(self)@.words);
            assert(self@.log =~= old(self)@.log);
            assert(self@.marks =~= old(self)@.marks);
        }
        self.retract(snapshot);
    }

    /// Places the digit `triple[2]` in the cell at row `triple[0]` and column
    /// `triple[1]`: records the placement as true, and as false every
    /// placement that the rules exclude with it. Nothing is tested against
    /// what was known before.
    pub fn assign(&mut self, triple: [SmallIndex<N>; 3])
        requires
            old(self)@.wf(),
        ensures
            final(self)@ == old(self)@.assign(
                triple[0].value(),
                triple[1].value(),
                triple[2].value(),
            ),
            final(self)@.wf(),
    {
        let row = triple[0];
        let column = triple[1];
        let value = triple[2];
        let r: u16 = row.raw();
        let c: u16 = column.raw();
        let v: u16 = value.raw();
        reveal(Facts::assign);
        self.set(index(row, column, value), true);
        let ghost placed = self@;
        let mut i: u16 = 0;
        while i < 9
            invariant
                i <= 9,
                r == row.value() && c == column.value() && v == value.value(),
                r < 9 && c < 9 && v < 9,
                self@.wf(),
                self@ == placed.exclude(column_group(c as int, v as int), r as int, i as int),
            decreases 9 - i,
        {
            if i != r {
                self.set(index(SmallIndex::new_unchecked(i), column, value), false);
            }
            i += 1;
        }
        let ghost rows_done = self@;
        let mut i: u16 = 0;
        while i < 9
            invariant
                i <= 9,
                r == row.value() && c == column.value() && v == value.value(),
                r < 9 && c < 9 && v < 9,
                self@.wf(),
                self@ == rows_done.exclude(row_group(r as int, v as int), c as int, i as int),
            decreases 9 - i,
        {
            if i != c {
                self.set(index(row, SmallIndex::new_unchecked(i), value), false);
            }
            i += 1;
        }
        let ghost columns_done = self@;
        let mut i: u16 = 0;
        while i < 9
            invariant
                i <= 9,
                r == row.value() && c == column.value() && v == value.value(),
                r < 9 && c < 9 && v < 9,
                self@.wf(),
                self@ == columns_done.exclude(cell_group(r as int, c as int), v as int, i as int),
            decreases 9 - i,
        {
            if i != v {
                self.set(index(row, column, SmallIndex::new_unchecked(i)), false);
            }
            i += 1;
        }
        let ghost values_done = self@;
        let block_row: u16 = r - r % 3;
        let block_column: u16 = c - c % 3;
        let ghost block = block_group(block_row as int, block_column as int, v as int);
        let ghost keep = (r % 3) * 3 + c % 3;
        let mut a: u16 = 0;
        while a < 3
            invariant
                a <= 3,
                r == row.value() && c == column.value() && v == value.value(),
                r < 9 && c < 9 && v < 9,
                block_row == r - r % 3 && block_column == c - c % 3,
                block == block_group(block_row as int, block_column as int, v as int),
                keep == (r % 3) * 3 + c % 3,
                self@.wf(),
                self@ == values_done.exclude(block, keep, 3 * a),
            decreases 3 - a,
        {
            let mut b: u16 = 0;
            while b < 3
                invariant
                    a < 3,
                    b <= 3,
                    r == row.value() && c == column.value() && v == value.value(),
                    r < 9 && c < 9 && v < 9,
                    block_row == r - r % 3 && block_column == c - c % 3,
                    block == block_group(block_row as int, block_column as int, v as int),
                    keep == (r % 3) * 3 + c % 3,
                    self@.wf(),
                    self@ == values_done.exclude(block, keep, 3 * a + b),
                decreases 3 - b,
            {
                if block_row + a != r || block_column + b != c {
                    self.set(
                        index(
                            SmallIndex::new_unchecked(block_row + a),
                            SmallIndex::new_unchecked(block_column + b),
                            value,
                        ),
                        false,
                    );
                }
                b += 1;
            }
            a += 1;
        }
    }

    /// Forces variable `index` to `value`: a placement where it is true, a
    /// single record where it is false.
    pub fn set_false_or_assign(&mut self, index: SmallIndex<VARS>, value: bool)
        requires
            old(self)@.wf(),
        ensures
            final(self)@ == old(self)@.force(index.value(), value),
            final(self)@.wf(),
    {
        reveal(Facts::force);
        if value {
            self.assign(index.triple());
        } else {
            self.set(index, false);
        }
    }

    /// The position in the log that slot `slot` of the checkpoint stack
    /// holds, whether the slot is at present in use or not.
    pub fn mark(&self, slot: usize) -> (r: usize)
        requires
            slot < GRID,
        ensures
            r == self@.marks[slot as int],
    {
        self.cursor[slot].raw() as usize
    }

    /// The literal at position `pos` of the log.
    pub fn logged(&self, pos: usize) -> (r: SmallIndex<VALUES>)
        requires
            self@.wf(),
            pos < self@.log.len(),
        ensures
            r.value() == self@.log[pos as int],
    {
        self.log[pos]
    }

    /// Clears the flag that says that new facts are pending.
    pub fn clear_pending(&mut self)
        ensures
            final(self)@ == (Facts { pending: false, ..old(self)@ }),
    {
        self.new_units = false;
    }

    /// The packed words: two bits per variable, sixteen variables per word,
    /// the variable with the lowest number in the lowest bits.
    pub fn words(&self) -> (r: &[u32; UNITS])
        ensures
            r@ == self@.words,
    {
        &self.raw
    }

    /// How many literals are known.
    pub fn known(&self) -> (r: usize)
        ensures
            r == self@.known(),
    {
        self.next_log
    }

    /// The height of the checkpoint stack.
    pub fn depth(&self) -> (r: usize)
        ensures
            r == self@.depth,
    {
        self.next_cursor
    }

    /// Whether a literal became known since the flag was last cleared.
    pub fn pending(&self) -> (r: bool)
        ensures
            r == self@.pending,
    {
        self.new_units
    }
}

} // verus!
