//! The mathematical model of the assignment store: which literals are known
//! to hold, in which order they became known, and the positions in that order
//! to which the store can return.
use vstd::prelude::*;
use crate::groups::{block_group, cell_group, column_group, literal, row_group, var_at};
use crate::{GRID, UNITS, VALUES, VARS};

verus! {

/// Whether bit `b` of `w` is set, bit 0 being the lowest.
pub open spec fn word_bit(w: u32, b: u32) -> bool {
    (w >> b) & 1 == 1
}

/// Whether the bit of literal `lit` is set in the packed words: literal `lit`
/// has bit `lit % 32` of word `lit / 32`.
pub open spec fn bit(words: Seq<u32>, lit: int) -> bool {
    word_bit(words[lit / 32], (lit % 32) as u32)
}

/// The packed words with the bit of `lit` set.
pub open spec fn with_bit(words: Seq<u32>, lit: int) -> Seq<u32> {
    words.update(lit / 32, words[lit / 32] | (1u32 << ((lit % 32) as u32)))
}

/// The packed words with the bit of `lit` cleared.
pub open spec fn without_bit(words: Seq<u32>, lit: int) -> Seq<u32> {
    words.update(lit / 32, words[lit / 32] & !(1u32 << ((lit % 32) as u32)))
}

/// The packed words after the entries of `log` from position `pos` on were
/// withdrawn, the last first.
pub open spec fn unwind(words: Seq<u32>, log: Seq<int>, pos: int) -> Seq<u32>
    decreases log.len(),
{
    if log.len() <= pos || log.len() == 0 {
        words
    } else {
        unwind(without_bit(words, log.last()), log.drop_last(), pos)
    }
}

/// The packed words say of each literal what the log says: a literal's bit is
/// set exactly if the log holds it, and the log holds no literal twice.
pub open spec fn consistent(words: Seq<u32>, log: Seq<int>) -> bool {
    &&& words.len() == UNITS
    &&& log.no_duplicates()
    &&& forall|i: int| 0 <= i < log.len() ==> 0 <= #[trigger] log[i] < VALUES
    &&& forall|lit: int| 0 <= lit < 32 * UNITS
        ==> (#[trigger] bit(words, lit) <==> log.contains(lit))
}

/// The state of the assignment store.
pub struct Facts {
    /// The truth values, two bits per variable: bit `2 * var` says that `var`
    /// is known false, bit `2 * var + 1` that it is known true.
    pub words: Seq<u32>,
    /// The literals known to hold, in the order in which they became known.
    pub log: Seq<int>,
    /// The slots of the checkpoint stack, those above its top included: each
    /// holds the length that the log had when the slot was last written.
    pub marks: Seq<int>,
    /// The height of the checkpoint stack.
    pub depth: int,
    /// Whether a literal became known since the flag was last cleared.
    pub pending: bool,
}

impl Facts {
    /// The store in which nothing is known.
    pub open spec fn empty() -> Facts {
        Facts {
            words: Seq::new(UNITS as nat, |i: int| 0u32),
            log: Seq::empty(),
            marks: Seq::new(GRID as nat, |i: int| 0int),
            depth: 0,
            pending: false,
        }
    }

    /// The invariant of the store.
    pub open spec fn wf(self) -> bool {
        &&& consistent(self.words, self.log)
        &&& self.log.len() <= VALUES
        &&& self.marks.len() == GRID
        &&& forall|i: int| 0 <= i < GRID ==> 0 <= #[trigger] self.marks[i] <= VALUES
        &&& 0 <= self.depth <= GRID
    }

    /// Whether literal `lit` is known to hold.
    pub open spec fn knows(self, lit: int) -> bool {
        bit(self.words, lit)
    }

    /// The two-bit code of variable `var`: 0 unknown, 1 known false, 2 known
    /// true, 3 both recorded.
    pub open spec fn code(self, var: int) -> int {
        (if self.knows(2 * var) {
            1int
        } else {
            0int
        }) + (if self.knows(2 * var + 1) {
            2int
        } else {
            0int
        })
    }

    /// How many literals are known.
    pub open spec fn known(self) -> int {
        self.log.len() as int
    }

    /// The store after literal `lit` was recorded as holding.
    pub open spec fn learn(self, lit: int) -> Facts {
        if self.knows(lit) {
            self
        } else {
            Facts {
                words: with_bit(self.words, lit),
                log: self.log.push(lit),
                pending: true,
                ..self
            }
        }
    }

    /// The store after variable `var` was recorded as having truth value
    /// `value`.
    pub open spec fn set(self, var: int, value: bool) -> Facts {
        self.learn(literal(var, value))
    }

    /// The store after the current length of the log was pushed on the
    /// checkpoint stack; a full stack stays as it is.
    pub open spec fn checkpoint(self) -> Facts {
        if self.depth >= GRID {
            self
        } else {
            Facts {
                marks: self.marks.update(self.depth, self.log.len() as int),
                depth: self.depth + 1,
                ..self
            }
        }
    }

    /// The store after the top of the checkpoint stack was dropped, with
    /// everything known kept.
    pub open spec fn discard(self) -> Facts {
        if self.depth <= 0 {
            self
        } else {
            Facts { depth: self.depth - 1, ..self }
        }
    }

    /// The store after every literal recorded from position `pos` of the log
    /// on was withdrawn; the checkpoint stack stays as it is.
    pub open spec fn retract(self, pos: int) -> Facts {
        Facts {
            words: unwind(self.words, self.log, pos),
            log: if pos < self.log.len() {
                self.log.take(pos)
            } else {
                self.log
            },
            ..self
        }
    }

    /// The store after the top of the checkpoint stack was popped and every
    /// literal recorded since that checkpoint was withdrawn.
    pub open spec fn rollback(self) -> Facts {
        if self.depth <= 0 {
            self
        } else {
            Facts { depth: self.depth - 1, ..self.retract(self.marks[self.depth - 1]) }
        }
    }

    /// The store after each of the first `n` variables of `group`, but the one
    /// at position `keep`, was recorded as false.
    pub open spec fn exclude(self, group: Seq<int>, keep: int, n: int) -> Facts
        decreases n,
    {
        if n <= 0 {
            self
        } else {
            let before = self.exclude(group, keep, n - 1);
            if n - 1 == keep {
                before
            } else {
                before.set(group[n - 1], false)
            }
        }
    }

    /// The store after the digit `value` was placed in the cell at `row` and
    /// `column`: the placement is recorded as true, then as false the same
    /// digit in every other row of the column, in every other column of the
    /// row, every other digit of the cell, and the same digit in every other
    /// cell of the block.
    #[verifier::opaque]
    pub open spec fn assign(self, row: int, column: int, value: int) -> Facts {
        let placed = self.set(var_at(row, column, value), true);
        let rows_done = placed.exclude(column_group(column, value), row, 9);
        let columns_done = rows_done.exclude(row_group(row, value), column, 9);
        let digits_done = columns_done.exclude(cell_group(row, column), value, 9);
        digits_done.exclude(
            block_group(row - row % 3, column - column % 3, value),
            (row % 3) * 3 + column % 3,
            9,
        )
    }

    /// The store after the first `n` of the records `ops`, each a variable and
    /// a truth value, were made in order.
    pub open spec fn set_all(self, ops: Seq<(int, bool)>, n: int) -> Facts
        decreases n,
    {
        if n <= 0 {
            self
        } else {
            self.set_all(ops, n - 1).set(ops[n - 1].0, ops[n - 1].1)
        }
    }

    /// The variables of which something is known.
    pub open spec fn known_vars(self) -> Set<int> {
        Set::new(|var: int| 0 <= var < VARS && self.code(var) != 0)
    }

    /// This store has everything that `earlier` had, in the same order, and
    /// gives `earlier` back when what came after is withdrawn.
    pub open spec fn extends(self, earlier: Facts) -> bool {
        &&& earlier.log.len() <= self.log.len()
        &&& self.log.take(earlier.log.len() as int) == earlier.log
        &&& unwind(self.words, self.log, earlier.log.len() as int) == earlier.words
    }

    /// This store is `earlier` after more literals were recorded, with the
    /// checkpoint stack untouched and the flag raised if the log grew.
    pub open spec fn follows(self, earlier: Facts) -> bool {
        &&& self.extends(earlier)
        &&& self.marks == earlier.marks
        &&& self.depth == earlier.depth
        &&& self.pending == (earlier.pending || self.log.len() > earlier.log.len())
    }

    /// The store after variable `var` was forced to `value`: a placement where
    /// it is true, a single record where it is false.
    #[verifier::opaque]
    pub open spec fn force(self, var: int, value: bool) -> Facts {
        if value {
            self.assign(var / 81, var / 9 % 9, var % 9)
        } else {
            self.set(var, false)
        }
    }
}

pub proof fn lemma_word_bits(w: u32, b: u32, c: u32)
    by (bit_vector)
    requires
        b < 32,
        c < 32,
    ensures
        word_bit(w | (1u32 << b), c) == (c == b || word_bit(w, c)),
        word_bit(w & !(1u32 << b), c) == (c != b && word_bit(w, c)),
        (w & (1u32 << b) == 0) == !word_bit(w, b),
        word_bit(w, b) ==> (w | (1u32 << b)) == w,
        !word_bit(w, b) ==> ((w | (1u32 << b)) & !(1u32 << b)) == w,
        !word_bit(0u32, c),
{
}

pub proof fn lemma_word_crumb(w: u32, s: u32, t: u32)
    by (bit_vector)
    requires
        s < 31,
        t == s + 1,
    ensures
        (w >> s) & 3 == (if word_bit(w, s) {
            1u32
        } else {
            0u32
        }) + (if word_bit(w, t) {
            2u32
        } else {
            0u32
        }),
{
}

/// Setting the bit of one literal changes what the words say of that literal
/// only.
pub proof fn lemma_with_bit(words: Seq<u32>, lit: int, other: int)
    requires
        words.len() == UNITS,
        0 <= lit < 32 * UNITS,
        0 <= other < 32 * UNITS,
    ensures
        bit(with_bit(words, lit), other) == (other == lit || bit(words, other)),
        bit(words, lit) ==> with_bit(words, lit) == words,
{
    lemma_word_bits(words[lit / 32], (lit % 32) as u32, (other % 32) as u32);
    if bit(words, lit) {
        assert(with_bit(words, lit) =~= words);
    }
}

/// Clearing the bit of one literal changes what the words say of that literal
/// only, and takes back what setting it did.
pub proof fn lemma_without_bit(words: Seq<u32>, lit: int, other: int)
    requires
        words.len() == UNITS,
        0 <= lit < 32 * UNITS,
        0 <= other < 32 * UNITS,
    ensures
        bit(without_bit(words, lit), other) == (other != lit && bit(words, other)),
        !bit(words, lit) ==> without_bit(with_bit(words, lit), lit) == words,
{
    lemma_word_bits(words[lit / 32], (lit % 32) as u32, (other % 32) as u32);
    if !bit(words, lit) {
        assert(without_bit(with_bit(words, lit), lit) =~= words);
    }
}

/// A literal that is not yet known finds room in the log, and recording it
/// keeps words and log consistent.
pub proof fn lemma_consistent_push(words: Seq<u32>, log: Seq<int>, lit: int)
    requires
        consistent(words, log),
        0 <= lit < VALUES,
        !bit(words, lit),
    ensures
        log.len() < VALUES,
        consistent(with_bit(words, lit), log.push(lit)),
{
    let held = log.to_set();
    let all = vstd::set_lib::set_int_range(0, VALUES as int);
    log.unique_seq_to_set();
    vstd::set_lib::lemma_int_range(0, VALUES as int);
    assert(held.subset_of(all.remove(lit))) by {
        assert forall|x: int| held.contains(x) implies all.remove(lit).contains(x) by {
            let i = choose|i: int| 0 <= i < log.len() && log[i] == x;
            assert(log.contains(x));
            assert(bit(words, x));
        }
    }
    vstd::set_lib::lemma_len_subset(held, all.remove(lit));
    let after = log.push(lit);
    assert forall|i: int, j: int| 0 <= i < after.len() && 0 <= j < after.len() && i != j
        implies after[i]
        != after[j] by {
        if i < log.len() {
            assert(log.contains(after[i]));
        }
        if j < log.len() {
            assert(log.contains(after[j]));
        }
    }
    assert forall|other: int| 0 <= other < 32 * UNITS implies (#[trigger] bit(
        with_bit(words, lit),
        other,
    ) <==> after.contains(other)) by {
        lemma_with_bit(words, lit, other);
        if other == lit {
            assert(after[log.len() as int] == lit);
        } else if log.contains(other) {
            let i = choose|i: int| 0 <= i < log.len() && log[i] == other;
            assert(after[i] == other);
        } else if after.contains(other) {
            let i = choose|i: int| 0 <= i < after.len() && after[i] == other;
            assert(log[i] == other);
        }
    }
}

/// Withdrawing the last entry of the log keeps words and log consistent.
pub proof fn lemma_consistent_pop(words: Seq<u32>, log: Seq<int>)
    requires
        consistent(words, log),
        log.len() > 0,
    ensures
        consistent(without_bit(words, log.last()), log.drop_last()),
{
    let lit = log.last();
    let before = log.drop_last();
    assert forall|other: int| 0 <= other < 32 * UNITS implies (#[trigger] bit(
        without_bit(words, lit),
        other,
    ) <==> before.contains(other)) by {
        lemma_without_bit(words, lit, other);
        if before.contains(other) {
            let i = choose|i: int| 0 <= i < before.len() && before[i] == other;
            assert(log[i] == other);
            assert(log.contains(other));
        } else if other != lit && log.contains(other) {
            let i = choose|i: int| 0 <= i < log.len() && log[i] == other;
            assert(before[i] == other);
        }
    }
}

/// Every store extends itself.
pub proof fn lemma_extends_self(facts: Facts)
    ensures
        facts.extends(facts),
        facts.follows(facts),
{
    assert(facts.log.take(facts.log.len() as int) =~= facts.log);
}

/// Recording one more literal keeps the invariant, and the store extends
/// whatever it extended before.
pub proof fn lemma_learn(facts: Facts, lit: int, earlier: Facts)
    requires
        facts.wf(),
        0 <= lit < VALUES,
        facts.extends(earlier),
    ensures
        facts.learn(lit).wf(),
        facts.learn(lit).extends(earlier),
        facts.learn(lit).follows(facts),
        facts.learn(lit).knows(lit),
        facts.learn(lit).log.len() == facts.log.len() + if facts.knows(lit) {
            0int
        } else {
            1int
        },
{
    let after = facts.learn(lit);
    lemma_extends_self(facts);
    lemma_with_bit(facts.words, lit, lit);
    if !facts.knows(lit) {
        lemma_consistent_push(facts.words, facts.log, lit);
        lemma_without_bit(facts.words, lit, lit);
        assert(after.log.drop_last() =~= facts.log);
        assert(after.log.last() == lit);
        let shared = earlier.log.len() as int;
        assert(after.log.take(shared) =~= facts.log.take(shared));
        assert(after.log.take(facts.log.len() as int) =~= facts.log);
        assert(unwind(after.words, after.log, facts.log.len() as int) == unwind(
            facts.words,
            facts.log,
            facts.log.len() as int,
        ));
        assert(unwind(after.words, after.log, earlier.log.len() as int) == unwind(
            facts.words,
            facts.log,
            earlier.log.len() as int,
        ));
    }
}

/// Withdrawing down to `pos` can be done in two steps: first down to `mid`.
pub proof fn lemma_unwind_split(words: Seq<u32>, log: Seq<int>, mid: int, pos: int)
    requires
        0 <= pos <= mid <= log.len(),
    ensures
        unwind(words, log, pos) == unwind(unwind(words, log, mid), log.take(mid), pos),
    decreases log.len(),
{
    if log.len() <= mid {
        assert(log.take(mid) =~= log);
    } else {
        lemma_unwind_split(without_bit(words, log.last()), log.drop_last(), mid, pos);
        assert(log.drop_last().take(mid) =~= log.take(mid));
    }
}

/// Extension is transitive.
pub proof fn lemma_extends_chain(first: Facts, second: Facts, third: Facts)
    requires
        second.extends(first),
        third.extends(second),
    ensures
        third.extends(first),
{
    let a = first.log.len() as int;
    let b = second.log.len() as int;
    assert(third.log.take(a) =~= third.log.take(b).take(a));
    lemma_unwind_split(third.words, third.log, b, a);
}

/// A store that follows one that follows a third follows the third.
pub proof fn lemma_follows_chain(first: Facts, second: Facts, third: Facts)
    requires
        second.follows(first),
        third.follows(second),
    ensures
        third.follows(first),
{
    lemma_extends_chain(first, second, third);
}

/// What a store knows, every store that extends it knows too.
pub proof fn lemma_extends_knows(later: Facts, earlier: Facts, lit: int)
    requires
        later.wf(),
        earlier.wf(),
        later.extends(earlier),
        0 <= lit < 32 * UNITS,
        earlier.knows(lit),
    ensures
        later.knows(lit),
{
    assert(earlier.log.contains(lit));
    let i = choose|i: int| 0 <= i < earlier.log.len() && earlier.log[i] == lit;
    assert(later.log.take(earlier.log.len() as int)[i] == lit);
    assert(later.log[i] == lit);
    assert(later.log.contains(lit));
}

/// Excluding the members of a group keeps the invariant and only adds to the
/// store.
pub proof fn lemma_exclude(facts: Facts, group: Seq<int>, keep: int, n: int)
    requires
        facts.wf(),
        0 <= n <= group.len(),
        forall|i: int| 0 <= i < group.len() ==> 0 <= #[trigger] group[i] < VARS,
    ensures
        facts.exclude(group, keep, n).wf(),
        facts.exclude(group, keep, n).follows(facts),
    decreases n,
{
    if n <= 0 {
        lemma_extends_self(facts);
    } else {
        lemma_exclude(facts, group, keep, n - 1);
        let before = facts.exclude(group, keep, n - 1);
        if n - 1 != keep {
            lemma_learn(before, literal(group[n - 1], false), facts);
        }
    }
}

/// The four groups of a placement hold variables.
pub proof fn lemma_groups_in_range(row: int, column: int, value: int)
    requires
        0 <= row < 9,
        0 <= column < 9,
        0 <= value < 9,
    ensures
        0 <= var_at(row, column, value) < VARS,
        crate::groups::is_group(cell_group(row, column)),
        crate::groups::is_group(row_group(row, value)),
        crate::groups::is_group(column_group(column, value)),
        crate::groups::is_group(block_group(row - row % 3, column - column % 3, value)),
        var_at(row, column, value) / 81 == row,
        var_at(row, column, value) / 9 % 9 == column,
        var_at(row, column, value) % 9 == value,
{
}

/// A placement keeps the invariant and only adds to the store; the placed
/// literal is known afterwards.
pub proof fn lemma_assign(facts: Facts, row: int, column: int, value: int)
    requires
        facts.wf(),
        0 <= row < 9,
        0 <= column < 9,
        0 <= value < 9,
    ensures
        facts.assign(row, column, value).wf(),
        facts.assign(row, column, value).follows(facts),
        facts.assign(row, column, value).knows(2 * var_at(row, column, value) + 1),
        !facts.knows(2 * var_at(row, column, value) + 1)
            ==> facts.assign(row, column, value).log.len()
            > facts.log.len(),
{
    reveal(Facts::assign);
    lemma_groups_in_range(row, column, value);
    lemma_extends_self(facts);
    let var = var_at(row, column, value);
    lemma_learn(facts, literal(var, true), facts);
    let s0 = facts.set(var, true);
    lemma_exclude(s0, column_group(column, value), row, 9);
    let s1 = s0.exclude(column_group(column, value), row, 9);
    lemma_exclude(s1, row_group(row, value), column, 9);
    let s2 = s1.exclude(row_group(row, value), column, 9);
    lemma_exclude(s2, cell_group(row, column), value, 9);
    let s3 = s2.exclude(cell_group(row, column), value, 9);
    let block = block_group(row - row % 3, column - column % 3, value);
    lemma_exclude(s3, block, (row % 3) * 3 + column % 3, 9);
    let s4 = s3.exclude(block, (row % 3) * 3 + column % 3, 9);
    lemma_extends_chain(facts, s0, s1);
    lemma_extends_chain(facts, s1, s2);
    lemma_extends_chain(facts, s2, s3);
    lemma_extends_chain(facts, s3, s4);
    lemma_extends_chain(s0, s1, s2);
    lemma_extends_chain(s0, s2, s3);
    lemma_extends_chain(s0, s3, s4);
    lemma_extends_knows(s4, s0, 2 * var + 1);
}

/// A variable is the variable of its row, column and digit.
pub proof fn lemma_var_decode(var: int)
    requires
        0 <= var < VARS,
    ensures
        0 <= var / 81 < 9,
        0 <= var / 9 % 9 < 9,
        0 <= var % 9 < 9,
        var_at(var / 81, var / 9 % 9, var % 9) == var,
{
}

/// Forcing a variable keeps the invariant and only adds to the store; the
/// forced literal is known afterwards, and the log is longer if it was not
/// known before.
pub proof fn lemma_force(facts: Facts, var: int, value: bool)
    requires
        facts.wf(),
        0 <= var < VARS,
    ensures
        facts.force(var, value).wf(),
        facts.force(var, value).follows(facts),
        facts.force(var, value).knows(literal(var, value)),
        !facts.knows(literal(var, value)) ==> facts.force(var, value).log.len() > facts.log.len(),
{
    reveal(Facts::force);
    if value {
        let row = var / 81;
        let column = var / 9 % 9;
        let digit = var % 9;
        lemma_var_decode(var);
        lemma_assign(facts, row, column, digit);
    } else {
        lemma_extends_self(facts);
        lemma_learn(facts, literal(var, false), facts);
    }
}

/// A run of records keeps the invariant and only adds to the store.
pub proof fn lemma_set_all(facts: Facts, ops: Seq<(int, bool)>, n: int)
    requires
        facts.wf(),
        0 <= n <= ops.len(),
        forall|i: int| 0 <= i < ops.len() ==> 0 <= (#[trigger] ops[i]).0 < VARS,
    ensures
        facts.set_all(ops, n).wf(),
        facts.set_all(ops, n).follows(facts),
    decreases n,
{
    if n <= 0 {
        lemma_extends_self(facts);
    } else {
        lemma_set_all(facts, ops, n - 1);
        lemma_learn(facts.set_all(ops, n - 1), literal(ops[n - 1].0, ops[n - 1].1), facts);
    }
}

/// Rollback is exact: after a checkpoint on a stack that has room for it,
/// whatever is recorded next, a rollback gives back the packed words, bit for
/// bit, and the log, as they were before the checkpoint, and the stack at its
/// old height.
pub proof fn lemma_rollback_exact(facts: Facts, ops: Seq<(int, bool)>)
    requires
        facts.wf(),
        facts.depth < GRID,
        forall|i: int| 0 <= i < ops.len() ==> 0 <= (#[trigger] ops[i]).0 < VARS,
    ensures
        facts.checkpoint().set_all(ops, ops.len() as int).rollback().words == facts.words,
        facts.checkpoint().set_all(ops, ops.len() as int).rollback().log == facts.log,
        facts.checkpoint().set_all(ops, ops.len() as int).rollback().depth == facts.depth,
{
    let marked = facts.checkpoint();
    lemma_extends_self(facts);
    assert(marked.wf());
    lemma_set_all(marked, ops, ops.len() as int);
    let grown = marked.set_all(ops, ops.len() as int);
    assert(grown.marks[grown.depth - 1] == facts.log.len());
    let end = grown.rollback();
    assert(end.log =~= facts.log);
}

/// The set of variables of which something is known is finite, and a store
/// that extends another knows something of every variable of which the other
/// did.
pub proof fn lemma_known_vars_grow(later: Facts, earlier: Facts)
    requires
        later.wf(),
        earlier.wf(),
        later.extends(earlier),
    ensures
        later.known_vars().finite(),
        earlier.known_vars().finite(),
        earlier.known_vars().subset_of(later.known_vars()),
        earlier.known_vars().len() <= later.known_vars().len(),
{
    let all = vstd::set_lib::set_int_range(0, VARS as int);
    vstd::set_lib::lemma_int_range(0, VARS as int);
    assert(later.known_vars().subset_of(all));
    assert(earlier.known_vars().subset_of(all));
    vstd::set_lib::lemma_len_subset(later.known_vars(), all);
    vstd::set_lib::lemma_len_subset(earlier.known_vars(), all);
    assert forall|var: int| earlier.known_vars().contains(var) implies later.known_vars().contains(
        var,
    ) by {
        if earlier.knows(2 * var) {
            lemma_extends_knows(later, earlier, 2 * var);
        }
        if earlier.knows(2 * var + 1) {
            lemma_extends_knows(later, earlier, 2 * var + 1);
        }
    }
    vstd::set_lib::lemma_len_subset(earlier.known_vars(), later.known_vars());
}

/// A placement never takes knowledge away: every variable of which something
/// was known is still known afterwards, and where nothing was known of the
/// placed variable, the number of such variables grows by at least one.
pub proof fn lemma_assign_monotone(facts: Facts, row: int, column: int, value: int)
    requires
        facts.wf(),
        0 <= row < 9,
        0 <= column < 9,
        0 <= value < 9,
    ensures
        facts.known_vars().subset_of(facts.assign(row, column, value).known_vars()),
        facts.known_vars().len() <= facts.assign(row, column, value).known_vars().len(),
        facts.code(var_at(row, column, value)) == 0 ==> facts.known_vars().len() + 1
            <= facts.assign(row, column, value).known_vars().len(),
{
    let after = facts.assign(row, column, value);
    let var = var_at(row, column, value);
    lemma_assign(facts, row, column, value);
    lemma_known_vars_grow(after, facts);
    if facts.code(var) == 0 {
        assert(after.known_vars().contains(var));
        assert(!facts.known_vars().contains(var));
        assert(facts.known_vars().subset_of(after.known_vars().remove(var)));
        vstd::set_lib::lemma_len_subset(facts.known_vars(), after.known_vars().remove(var));
    }
}

} // verus!
