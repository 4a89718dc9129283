use vstd::prelude::*;
use vstd::string::StringSliceAdditionalSpecFns;

use crate::eol_indexes::{index_wf, lemma_scan_index_wf, row_start_at};
use crate::lines::{eols, scan_eols};
use crate::splice::splice;

verus! {

/// A sorted index of end-of-line byte positions, prefixed by a 0 sentinel.
///
/// This is the variant whose lookups take the row to exist; callers state the
/// bound instead of handling an `Option`. The layout and meaning of the
/// entries are those of [`crate::eol_indexes::EolIndexes`].
pub struct BrIndexes(pub Vec<usize>);

impl View for BrIndexes {
    type V = Seq<usize>;

    open spec fn view(&self) -> Seq<usize> {
        self.0@
    }
}

impl BrIndexes {
    /// Builds the index by scanning the whole of `s`: the 0 sentinel followed
    /// by every end-of-line position.
    pub fn new(s: &str) -> (r: BrIndexes)
        ensures
            r@ == seq![0usize] + eols(s.spec_bytes()),
            index_wf(s.spec_bytes(), r@),
    {
        let bytes = s.as_bytes();
        let n = bytes.len();
        let mut found = scan_eols(bytes);
        let mut v: Vec<usize> = Vec::new();
        v.push(0);
        v.append(&mut found);
        proof {
            assert(s.spec_bytes().len() == n as int);
            lemma_scan_index_wf(s.spec_bytes());
        }
        BrIndexes(v)
    }

    /// The byte position of the first byte of row `row`.
    pub fn row_start(&self, row: usize) -> (r: usize)
        requires
            (row as int) < self@.len(),
            self@[row as int] + 1 <= usize::MAX,
        ensures
            r == row_start_at(self@, row as int),
    {
        let base = self.0[row];
        if row != 0 {
            base + 1
        } else {
            base
        }
    }

    /// Inserts the given positions at entry `at`, shifting later entries up.
    pub fn insert_indexes(&mut self, at: usize, indexes: &[usize])
        requires
            at <= old(self)@.len(),
            old(self)@.len() + indexes@.len() <= usize::MAX,
        ensures
            final(self)@ == old(self)@.take(at as int) + indexes@ + old(self)@.skip(at as int),
    {
        splice(&mut self.0, at, at, indexes);
    }

    /// Inserts one position at entry `at`.
    pub fn insert_index(&mut self, at: usize, index: usize)
        requires
            at <= old(self)@.len(),
        ensures
            final(self)@ == old(self)@.insert(at as int, index),
    {
        self.0.insert(at, index);
    }

    /// Removes the entries after `start` up to and including `end`.
    /// Does nothing when `start + 1 > end`.
    pub fn remove_indexes(&mut self, start: usize, end: usize)
        requires
            start + 1 <= end ==> (end as int) < old(self)@.len(),
        ensures
            final(self)@ == if start + 1 > end {
                old(self)@
            } else {
                old(self)@.take(start as int + 1) + old(self)@.skip(end as int + 1)
            },
    {
        if start >= end {
            return ;
        }
        let len = self.0.len();
        assert(end < len);
        let none: Vec<usize> = Vec::new();
        splice(&mut self.0, start + 1, end + 1, none.as_slice());
    }

    /// Replaces the entries after `start` up to and including `end` with the
    /// given positions.
    pub fn replace_indexes(&mut self, start: usize, end: usize, replacement: &[usize])
        requires
            start <= end,
            (end as int) < old(self)@.len(),
            old(self)@.len() + replacement@.len() <= usize::MAX,
        ensures
            final(self)@ == old(self)@.take(start as int + 1) + replacement@ + old(self)@.skip(
                end as int + 1,
            ),
    {
        let len = self.0.len();
        assert(end < len);
        splice(&mut self.0, start + 1, end + 1, replacement);
    }

    /// Adds `by` to every entry after entry `row`.
    pub fn add_offsets(&mut self, row: usize, by: usize)
        requires
            forall|k: int|
                row < k < old(self)@.len() ==> (#[trigger] old(self)@[k]) + by <= usize::MAX,
        ensures
            final(self)@.len() == old(self)@.len(),
            forall|k: int|
                0 <= k <= row && k < old(self)@.len() ==> final(self)@[k] == old(self)@[k],
            forall|k: int| row < k < old(self)@.len() ==> final(self)@[k] == old(self)@[k] + by,
    {
        let len = self.0.len();
        if row >= len {
            return ;
        }
        let mut i: usize = row + 1;
        while i < len
            invariant
                row + 1 <= i <= len,
                len == self@.len(),
                len == old(self)@.len(),
                forall|k: int|
                    row < k < old(self)@.len() ==> (#[trigger] old(self)@[k]) + by <= usize::MAX,
                forall|k: int| 0 <= k <= row ==> self@[k] == old(self)@[k],
                forall|k: int| row < k < i ==> self@[k] == old(self)@[k] + by,
                forall|k: int| i <= k < len ==> self@[k] == old(self)@[k],
            decreases len - i,
        {
            let v = self.0[i];
            self.0.set(i, v + by);
            i = i + 1;
        }
    }

    /// Subtracts `by` from every entry after entry `row`.
    pub fn sub_offsets(&mut self, row: usize, by: usize)
        requires
            forall|k: int| row < k < old(self)@.len() ==> by <= #[trigger] old(self)@[k],
        ensures
            final(self)@.len() == old(self)@.len(),
            forall|k: int|
                0 <= k <= row && k < old(self)@.len() ==> final(self)@[k] == old(self)@[k],
            forall|k: int| row < k < old(self)@.len() ==> final(self)@[k] == old(self)@[k] - by,
    {
        let len = self.0.len();
        if row >= len {
            return ;
        }
        let mut i: usize = row + 1;
        while i < len
            invariant
                row + 1 <= i <= len,
                len == self@.len(),
                len == old(self)@.len(),
                forall|k: int| row < k < old(self)@.len() ==> by <= #[trigger] old(self)@[k],
                forall|k: int| 0 <= k <= row ==> self@[k] == old(self)@[k],
                forall|k: int| row < k < i ==> self@[k] == old(self)@[k] - by,
                forall|k: int| i <= k < len ==> self@[k] == old(self)@[k],
            decreases len - i,
        {
            let v = self.0[i];
            self.0.set(i, v - by);
            i = i + 1;
        }
    }

    /// True when `row` is the last row of the index.
    pub fn is_last_row(&self, row: usize) -> (r: bool)
        requires
            (row as int) < self@.len(),
        ensures
            r == (row as int == self@.len() - 1),
    {
        self.0.len() - 1 == row
    }

    /// The number of rows, which equals the number of entries.
    pub fn row_count(&self) -> (r: usize)
        ensures
            r == self@.len(),
    {
        self.0.len()
    }

    /// The byte position of the first byte of the last row.
    pub fn last_row(&self) -> (r: usize)
        requires
            self@.len() >= 1,
            self@[self@.len() - 1] + 1 <= usize::MAX,
        ensures
            r == row_start_at(self@, self@.len() - 1),
    {
        self.row_start(self.0.len() - 1)
    }
}

impl Default for BrIndexes {
    /// The index of an empty document: the 0 sentinel alone.
    fn default() -> (r: Self)
        ensures
            r@ == seq![0usize],
    {
        let mut v: Vec<usize> = Vec::new();
        v.push(0);
        BrIndexes(v)
    }
}

} // verus!
