//! Converted floating-point literals.

use vstd::prelude::*;

verus! {

/// The bits of one converted literal.
struct FloatEntry {
    start: usize,
    bits: u64,
}

/// The bits of converted floating-point literals, by the offsets at which the literals start.
pub struct FloatTable {
    entries: Vec<FloatEntry>,
}

impl FloatTable {
    /// The offsets are in ascending order.
    #[verifier::type_invariant]
    spec fn ascending(self) -> bool {
        forall|i: int, j: int|
            0 <= i < j < self.entries@.len() ==> #[trigger] self.entries@[i].start
                < #[trigger] self.entries@[j].start
    }

    /// There is an entry for the offset.
    closed spec fn holds(self, start: usize) -> bool {
        exists|i: int| 0 <= i < self.entries@.len() && #[trigger] self.entries@[i].start == start
    }

    /// The place of the entry for an offset.
    closed spec fn place(self, start: usize) -> int {
        choose|i: int| 0 <= i < self.entries@.len() && #[trigger] self.entries@[i].start == start
    }
}

impl View for FloatTable {
    type V = Map<usize, u64>;

    closed spec fn view(&self) -> Map<usize, u64> {
        Map::new(|start: usize| self.holds(start), |start: usize| self.entries@[self.place(start)].bits)
    }
}

impl FloatTable {
    /// A table without entries.
    pub fn new() -> (table: FloatTable)
        ensures
            table@ == Map::<usize, u64>::empty(),
    {
        let table = FloatTable { entries: Vec::new() };
        assert(table@ =~= Map::<usize, u64>::empty());
        table
    }

    /// The place at which the entry for an offset stands or would have to stand.
    fn find(entries: &Vec<FloatEntry>, start: usize) -> (place: usize)
        requires
            forall|i: int, j: int|
                0 <= i < j < entries@.len() ==> #[trigger] entries@[i].start
                    < #[trigger] entries@[j].start,
        ensures
            place <= entries@.len(),
            forall|i: int| 0 <= i < place ==> #[trigger] entries@[i].start < start,
            forall|i: int| place <= i < entries@.len() ==> #[trigger] entries@[i].start >= start,
    {
        let mut low: usize = 0;
        let mut high: usize = entries.len();
        while low < high
            invariant
                low <= high <= entries@.len(),
                forall|i: int, j: int|
                    0 <= i < j < entries@.len() ==> #[trigger] entries@[i].start
                        < #[trigger] entries@[j].start,
                forall|i: int| 0 <= i < low ==> #[trigger] entries@[i].start < start,
                forall|i: int|
                    high <= i < entries@.len() ==> #[trigger] entries@[i].start >= start,
            decreases high - low,
        {
            let mid: usize = low + (high - low) / 2;
            if entries[mid].start < start {
                low = mid + 1;
            } else {
                high = mid;
            }
        }
        low
    }

    /// The bits of the literal that starts at the given offset.
    pub fn get(&self, start: usize) -> (bits: Option<u64>)
        ensures
            bits == if self@.dom().contains(start) {
                Some(self@[start])
            } else {
                None::<u64>
            },
    {
        proof {
            use_type_invariant(self);
        }
        let place = Self::find(&self.entries, start);
        if place < self.entries.len() && self.entries[place].start == start {
            proof {
                assert(self.entries@[place as int].start == start);
                let other = self.place(start);
                assert(self.entries@[other].start == start);
            }
            Some(self.entries[place].bits)
        } else {
            None
        }
    }

    /// Sets the bits of the literal that starts at the given offset.
    pub fn insert(&mut self, start: usize, bits: u64)
        ensures
            final(self)@ == old(self)@.insert(start, bits),
    {
        proof {
            use_type_invariant(&*self);
        }
        let ghost before = self.entries@;
        let mut entries: Vec<FloatEntry> = Vec::new();
        std::mem::swap(&mut entries, &mut self.entries);
        let place = Self::find(&entries, start);
        if place < entries.len() && entries[place].start == start {
            entries.set(place, FloatEntry { start, bits });
        } else {
            entries.insert(place, FloatEntry { start, bits });
        }
        let ghost after = entries@;
        assert(after[place as int] == (FloatEntry { start, bits }));
        assert forall|i: int, j: int| 0 <= i < j < after.len() implies #[trigger] after[i].start
            < #[trigger] after[j].start by {}
        self.entries = entries;
        proof {
            let grown = before.len() < after.len();
            assert forall|s: usize| #[trigger] self@.dom().contains(s) == old(self)@.insert(
                start,
                bits,
            ).dom().contains(s) by {
                assert(self.entries@[place as int].start == start);
                if self.holds(s) && s != start {
                    let k = self.place(s);
                    assert(after[k].start == s);
                    let b = if grown && k > place {
                        k - 1
                    } else {
                        k
                    };
                    assert(before[b].start == s);
                }
                if old(self).holds(s) {
                    let k = old(self).place(s);
                    assert(before[k].start == s);
                    let b = if grown && k >= place {
                        k + 1
                    } else {
                        k
                    };
                    assert(after[b].start == s);
                }
            }
            assert forall|s: usize| #[trigger] self@.dom().contains(s) implies self@[s] == old(
                self,
            )@.insert(start, bits)[s] by {
                let k = self.place(s);
                assert(after[k].start == s);
                if s == start {
                    assert(k == place);
                } else {
                    let o = old(self).place(s);
                    let b = if grown && k > place {
                        k - 1
                    } else {
                        k
                    };
                    assert(before[b].start == s);
                    assert(before[o].start == s);
                    assert(o == b);
                }
            }
            assert(self@ =~= old(self)@.insert(start, bits));
        }
    }
}

} // verus!
