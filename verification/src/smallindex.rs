//! Indices that are known to lie below a bound, and the conversions between
//! the index spaces of the engine: variables, literals, packed words.
use vstd::prelude::*;
use crate::{N, UNITS, VALUES, VARS};

verus! {

/// An index below `MAX`.
#[derive(Clone, Copy, PartialEq, Eq, Debug)]
pub struct SmallIndex<const MAX: usize>(u16);

impl<const MAX: usize> SmallIndex<MAX> {
    /// Every index lies below the bound of its type.
    #[verifier::type_invariant]
    pub closed spec fn in_range(self) -> bool {
        self.0 < MAX
    }

    /// What the invariant says of the index as an integer.
    pub proof fn lemma_in_range(self)
        requires
            self.in_range(),
        ensures
            0 <= self.value() < MAX,
    {
    }

    /// The index as a mathematical integer.
    pub closed spec fn value(self) -> int {
        self.0 as int
    }

    /// The index nearest to `index`: `index` itself where it is below `MAX`,
    /// else the largest index.
    pub fn new(index: u16) -> (r: Self)
        requires
            0 < MAX,
        ensures
            r.value() == if index < MAX { index as int } else { MAX - 1 },
    {
        if (index as usize) < MAX {
            Self(index)
        } else {
            Self((MAX - 1) as u16)
        }
    }

    /// The index `index`, which the caller knows to be in range.
    pub fn new_unchecked(index: u16) -> (r: Self)
        requires
            index < MAX,
        ensures
            r.value() == index,
    {
        Self(index)
    }

    /// The index as a machine integer.
    pub fn raw(self) -> (r: u16)
        ensures
            r == self.value(),
            r < MAX,
    {
        proof {
            use_type_invariant(&self);
        }
        self.0
    }

    /// An array of `LEN` copies of index 0.
    pub fn array<const LEN: usize>() -> (r: [Self; LEN])
        requires
            0 < MAX,
        ensures
            forall|i: int| 0 <= i < LEN ==> (#[trigger] r[i]).value() == 0,
    {
        [Self(0); LEN]
    }

    /// The element of `a` at this index.
    pub fn get<T: Copy>(self, a: &[T; MAX]) -> (r: T)
        ensures
            r == a[self.value()],
    {
        proof {
            use_type_invariant(&self);
        }
        a[self.0 as usize]
    }

    /// The place in `a` at this index.
    pub fn get_mut<T>(self, a: &mut [T; MAX]) -> (r: &mut T)
        ensures
            *r == old(a)[self.value()],
            final(a)@ == old(a)@.update(self.value(), *final(r)),
    {
        proof {
            use_type_invariant(&self);
        }
        &mut a[self.0 as usize]
    }

    /// How many indices the type has: `MAX`, as far as sixteen bits reach.
    pub open spec fn count() -> int {
        if MAX < 0x10000 {
            MAX as int
        } else {
            0x10000
        }
    }

    /// Every index, in ascending order.
    pub fn all() -> (r: Vec<Self>)
        ensures
            r.len() == Self::count(),
            forall|i: int| 0 <= i < r.len() ==> (#[trigger] r[i]).value() == i,
    {
        let mut out: Vec<Self> = Vec::new();
        let mut i: usize = 0;
        while i < MAX && i < 0x10000
            invariant
                i <= MAX,
                i <= 0x10000,
                out.len() == i,
                forall|k: int| 0 <= k < i ==> (#[trigger] out[k]).value() == k,
            decreases 0x10000 - i,
        {
            out.push(Self(i as u16));
            i += 1;
        }
        out
    }

    /// Every index below this one, in ascending order.
    pub fn priors(self) -> (r: Vec<Self>)
        ensures
            r.len() == self.value(),
            forall|i: int| 0 <= i < r.len() ==> (#[trigger] r[i]).value() == i,
    {
        proof {
            use_type_invariant(&self);
        }
        let mut out: Vec<Self> = Vec::new();
        let mut i: u16 = 0;
        while i < self.0
            invariant
                i <= self.0,
                self.0 < MAX,
                out.len() == i,
                forall|k: int| 0 <= k < i ==> (#[trigger] out[k]).value() == k,
            decreases self.0 - i,
        {
            out.push(Self(i));
            i += 1;
        }
        out
    }

    /// The pairs of `index` with each index below it, the lower in ascending
    /// order.
    pub fn pairs_for(index: Self) -> (r: Vec<(Self, Self)>)
        ensures
            r.len() == index.value(),
            forall|i: int|
                0 <= i < r.len() ==> (#[trigger] r[i]).0.value() == index.value() && r[i].1.value()
                    == i,
    {
        proof {
            use_type_invariant(&index);
        }
        let mut out: Vec<(Self, Self)> = Vec::new();
        let mut i: u16 = 0;
        while i < index.0
            invariant
                i <= index.0,
                index.0 < MAX,
                out.len() == i,
                forall|k: int|
                    0 <= k < i ==> (#[trigger] out[k]).0.value() == index.value()
                        && out[k].1.value()
                        == k,
            decreases index.0 - i,
        {
            out.push((index, Self(i)));
            i += 1;
        }
        out
    }

    /// Every pair of two different indices, once: entry `h` holds the pairs of
    /// `h` with each index below it.
    pub fn pairs() -> (r: Vec<Vec<(Self, Self)>>)
        ensures
            r.len() == Self::count(),
            forall|h: int| 0 <= h < r.len() ==> (#[trigger] r[h]).len() == h,
            forall|h: int, l: int|
                0 <= l < h < r.len() ==> (#[trigger] r[h][l]).0.value() == h && r[h][l].1.value()
                    == l,
    {
        let mut out: Vec<Vec<(Self, Self)>> = Vec::new();
        let mut h: usize = 0;
        while h < MAX && h < 0x10000
            invariant
                h <= MAX,
                h <= 0x10000,
                out.len() == h,
                forall|k: int| 0 <= k < h ==> (#[trigger] out[k]).len() == k,
                forall|k: int, l: int|
                    0 <= l < k < h ==> (#[trigger] out[k][l]).0.value() == k && out[k][l].1.value()
                        == l,
            decreases 0x10000 - h,
        {
            let row = Self::pairs_for(Self(h as u16));
            out.push(row);
            h += 1;
        }
        out
    }
}

/// The indices of a sequence as integers.
pub open spec fn values<const MAX: usize>(s: Seq<SmallIndex<MAX>>) -> Seq<int> {
    Seq::new(s.len(), |i: int| s[i].value())
}

impl SmallIndex<VALUES> {
    /// The variable of this literal, and its polarity: 1 for the positive
    /// literal, 0 for the negative.
    pub fn to_var(self) -> (r: (SmallIndex<VARS>, u16))
        ensures
            r.0.value() == self.value() / 2,
            r.1 == self.value() % 2,
    {
        proof {
            use_type_invariant(&self);
        }
        let x: u16 = self.0;
        assert(x >> 1 == x / 2 && x & 1 == x % 2) by (bit_vector);
        (SmallIndex(x >> 1), x & 1)
    }

    /// The packed word that holds this literal's bit, and the bit's position
    /// in that word.
    pub fn raw_bit(self) -> (r: (SmallIndex<UNITS>, u16))
        ensures
            r.0.value() == self.value() / 32,
            r.1 == self.value() % 32,
    {
        proof {
            use_type_invariant(&self);
        }
        let x: u16 = self.0;
        assert(x >> 5 == x / 32 && x & 31 == x % 32) by (bit_vector);
        (SmallIndex(x >> 5), x & 31)
    }
}

impl SmallIndex<VARS> {
    /// The packed word that holds this variable's two bits, and the position
    /// of that two-bit field in the word.
    pub fn raw_crumb(self) -> (r: (SmallIndex<UNITS>, u16))
        ensures
            r.0.value() == self.value() / 16,
            r.1 == self.value() % 16,
    {
        proof {
            use_type_invariant(&self);
        }
        let x: u16 = self.0;
        assert(x >> 4 == x / 16 && x & 15 == x % 16) by (bit_vector);
        (SmallIndex(x >> 4), x & 15)
    }

    /// The literal of this variable with the polarity that the lowest bit of
    /// `value` gives.
    pub fn from_var(self, value: u16) -> (r: SmallIndex<VALUES>)
        ensures
            r.value() == 2 * self.value() + value % 2,
    {
        proof {
            use_type_invariant(&self);
        }
        let x: u16 = self.0;
        assert(x < 729 ==> ((x << 1) | (value & 1)) == 2 * x + value % 2) by (bit_vector);
        SmallIndex((x << 1) | (value & 1))
    }

    /// The row, column and digit of this variable.
    pub fn triple(self) -> (r: [SmallIndex<N>; 3])
        ensures
            r[0].value() == self.value() / 81,
            r[1].value() == self.value() / 9 % 9,
            r[2].value() == self.value() % 9,
    {
        proof {
            use_type_invariant(&self);
        }
        let x: u16 = self.0;
        [SmallIndex(x / 81), SmallIndex(x / 9 % 9), SmallIndex(x % 9)]
    }
}

} // verus!
