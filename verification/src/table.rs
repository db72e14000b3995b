//! One page-table node: a fixed array of 512 entries.

use vstd::prelude::*;

verus! {

/// The number of entries in a table at every level.
pub const N_ENTRIES: usize = 512;

/// The contents of an all-zero table.
pub open spec fn zero_table() -> Seq<u64> {
    Seq::new(512, |i: int| 0u64)
}

/// A page-table node at one level of the hierarchy.
///
/// The level is carried as a ghost marker (4 for the top level down to
/// 1 for the leaf level), so that a leaf table can never be treated as
/// a directory: the machine invariant ties every descent to a drop of
/// exactly one level.
pub struct Table {
    entries: Vec<u64>,
    level: Ghost<int>,
}

impl View for Table {
    type V = Seq<u64>;

    closed spec fn view(&self) -> Seq<u64> {
        self.entries@
    }
}

impl Table {
    /// The hierarchy level this table stands at.
    pub closed spec fn lvl(self) -> int {
        self.level@
    }

    /// A table holds exactly 512 entries.
    pub open spec fn wf(self) -> bool {
        self@.len() == 512
    }

    /// A freshly zeroed table for the given level: all entries unused.
    pub fn zeroed(level: Ghost<int>) -> (t: Table)
        ensures
            t.wf(),
            t@ == zero_table(),
            t.lvl() == level@,
    {
        let mut entries: Vec<u64> = Vec::new();
        let mut i: usize = 0;
        while i < 512
            invariant
                i <= 512,
                entries@.len() == i,
                forall|j: int| 0 <= j < i ==> entries@[j] == 0u64,
            decreases 512 - i,
        {
            entries.push(0u64);
            i += 1;
        }
        let t = Table { entries, level };
        proof {
            assert(t@ =~= zero_table());
        }
        t
    }

    /// Read the entry at `index`.
    pub fn entry_at(&self, index: usize) -> (e: u64)
        requires
            self.wf(),
            index < 512,
        ensures
            e == self@[index as int],
    {
        self.entries[index]
    }

    /// Overwrite the entry at `index`.
    pub fn set_entry(&mut self, index: usize, e: u64)
        requires
            old(self).wf(),
            index < 512,
        ensures
            final(self).wf(),
            final(self)@ == old(self)@.update(index as int, e),
            final(self).lvl() == old(self).lvl(),
    {
        self.entries.set(index, e);
    }

    /// Clear every entry to the unused state.
    pub fn zero(&mut self)
        requires
            old(self).wf(),
        ensures
            final(self).wf(),
            final(self)@ == zero_table(),
            final(self).lvl() == old(self).lvl(),
    {
        let mut i: usize = 0;
        while i < 512
            invariant
                i <= 512,
                self.wf(),
                self.lvl() == old(self).lvl(),
                forall|j: int| 0 <= j < i ==> self@[j] == 0u64,
            decreases 512 - i,
        {
            self.set_entry(i, 0u64);
            i += 1;
        }
        proof {
            assert(self@ =~= zero_table());
        }
    }
}

} // verus!
