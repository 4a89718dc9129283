use vstd::prelude::*;
use vstd::string::StringSliceAdditionalSpecFns;

use crate::lines::{eols, is_eol_at, lemma_eols_prefix_sorted, scan_eols, CR, NL};
use crate::splice::splice;

verus! {

/// A sorted index of end-of-line byte positions, prefixed by a 0 sentinel.
///
/// Entry 0 is always 0 and is not a terminator; for `k >= 1`, entry `k` is the
/// byte position of the terminator that ends row `k - 1` (the `\n` of a
/// `\r\n`). Row `r` therefore starts at entry `r`, plus one for `r != 0`.
pub struct EolIndexes(pub Vec<usize>);

impl View for EolIndexes {
    type V = Seq<usize>;

    open spec fn view(&self) -> Seq<usize> {
        self.0@
    }
}

/// Byte position of the first byte of row `r`, as read from the index `br`.
pub open spec fn row_start_at(br: Seq<usize>, r: int) -> int {
    br[r] + if r == 0 {
        0int
    } else {
        1int
    }
}

/// The index `br` is a well-formed end-of-line index for `text`: it starts
/// with the 0 sentinel, every later entry points at a `\n` or `\r` byte of
/// `text`, and the entries after the sentinel strictly increase.
pub open spec fn index_wf(text: Seq<u8>, br: Seq<usize>) -> bool {
    &&& br.len() >= 1
    &&& br[0] == 0
    &&& forall|k: int|
        1 <= k < br.len() ==> #[trigger] br[k] < text.len() && (text[br[k] as int] == NL
            || text[br[k] as int] == CR)
    &&& forall|j: int, k: int| 1 <= j < k < br.len() ==> #[trigger] br[j] < #[trigger] br[k]
}

/// The index built by a full scan of `text` is well formed for `text`.
pub proof fn lemma_scan_index_wf(text: Seq<u8>)
    requires
        text.len() <= usize::MAX,
    ensures
        index_wf(text, seq![0usize] + eols(text)),
{
    lemma_eols_prefix_sorted(text, text.len() as int);
    let br = seq![0usize] + eols(text);
    assert forall|k: int|
        1 <= k < br.len() implies #[trigger] br[k] < text.len() && (text[br[k] as int] == NL
        || text[br[k] as int] == CR) by {
        assert(br[k] == eols(text)[k - 1]);
        assert(is_eol_at(text, eols(text)[k - 1] as int));
    }
    assert forall|j: int, k: int|
        1 <= j < k < br.len() implies #[trigger] br[j] < #[trigger] br[k] by {
        assert(br[j] == eols(text)[j - 1] && br[k] == eols(text)[k - 1]);
    }
}

/// In a strictly increasing sequence bounded by `bound`, entry `k` is at
/// least `k` more than the first entry's floor of 0.
proof fn lemma_strict_entry(v: Seq<usize>, k: int)
    requires
        forall|i: int, j: int| 0 <= i < j < v.len() ==> #[trigger] v[i] < #[trigger] v[j],
        0 <= k < v.len(),
    ensures
        v[k] >= k,
    decreases k,
{
    if k > 0 {
        lemma_strict_entry(v, k - 1);
    }
}

/// A well-formed index cannot have more entries than the text has bytes,
/// past its sentinel: each entry past it marks a distinct byte.
pub proof fn lemma_index_len_bound(text: Seq<u8>, br: Seq<usize>)
    requires
        index_wf(text, br),
    ensures
        br.len() <= text.len() + 1,
{
    if br.len() >= 2 {
        let tail = br.skip(1);
        assert forall|i: int, j: int|
            0 <= i < j < tail.len() implies #[trigger] tail[i] < #[trigger] tail[j] by {
            assert(tail[i] == br[i + 1] && tail[j] == br[j + 1]);
        }
        lemma_strict_entry(tail, tail.len() - 1);
        assert(br[br.len() - 1] < text.len());
    }
}

/// A strictly increasing sequence of positions below `bound` has at most
/// `bound` entries.
pub proof fn lemma_sorted_len_bound(v: Seq<usize>, bound: int)
    requires
        forall|i: int, j: int| 0 <= i < j < v.len() ==> #[trigger] v[i] < #[trigger] v[j],
        forall|i: int| 0 <= i < v.len() ==> #[trigger] v[i] < bound,
        bound >= 0,
    ensures
        v.len() <= bound,
{
    if v.len() > 0 {
        lemma_strict_entry(v, v.len() - 1);
    }
}

impl EolIndexes {
    /// Builds the index by scanning the whole of `s`: the 0 sentinel followed
    /// by every end-of-line position.
    pub fn new(s: &str) -> (r: EolIndexes)
        ensures
            r@ == seq![0usize] + eols(s.spec_bytes()),
            index_wf(s.spec_bytes(), r@),
    {
        let bytes = s.as_bytes();
        let n = bytes.len();
        let mut found = scan_eols(bytes);
        let mut v: Vec<usize> = Vec::new();
        v.push(0);
        v.append(&mut found);
        proof {
            assert(s.spec_bytes().len() == n as int);
            lemma_scan_index_wf(s.spec_bytes());
        }
        EolIndexes(v)
    }

    /// The byte position of the first byte of row `row`, or `None` when the
    /// row does not exist.
    pub fn row_start(&self, row: usize) -> (r: Option<usize>)
        requires
            (row as int) < self@.len() ==> self@[row as int] + 1 <= usize::MAX,
        ensures
            match r {
                Some(v) => (row as int) < self@.len() && v == row_start_at(self@, row as int),
                None => (row as int) >= self@.len(),
            },
    {
        if row < self.0.len() {
            let base = self.0[row];
            if row != 0 {
                Some(base + 1)
            } else {
                Some(base)
            }
        } else {
            None
        }
    }

    /// Inserts the given positions at entry `at`, shifting later entries up.
    pub fn insert_indexes(&mut self, at: usize, indexes: &[usize])
        requires
            at <= old(self)@.len(),
            old(self)@.len() + indexes@.len() <= usize::MAX,
        ensures
            final(self)@ == old(self)@.take(at as int) + indexes@ + old(self)@.skip(at as int),
    {
        splice(&mut self.0, at, at, indexes);
    }

    /// Inserts one position at entry `at`.
    pub fn insert_index(&mut self, at: usize, index: usize)
        requires
            at <= old(self)@.len(),
        ensures
            final(self)@ == old(self)@.insert(at as int, index),
    {
        self.0.insert(at, index);
    }

    /// Removes the entries after `start` up to and including `end`.
    /// Does nothing when `start + 1 > end`.
    pub fn remove_indexes(&mut self, start: usize, end: usize)
        requires
            start + 1 <= end ==> (end as int) < old(self)@.len(),
        ensures
            final(self)@ == if start + 1 > end {
                old(self)@
            } else {
                old(self)@.take(start as int + 1) + old(self)@.skip(end as int + 1)
            },
    {
        if start >= end {
            return ;
        }
        let len = self.0.len();
        assert(end < len);
        let none: Vec<usize> = Vec::new();
        splice(&mut self.0, start + 1, end + 1, none.as_slice());
    }

    /// Replaces the entries after `start` up to and including `end` with the
    /// given positions.
    pub fn replace_indexes(&mut self, start: usize, end: usize, replacement: &[usize])
        requires
            start <= end,
            (end as int) < old(self)@.len(),
            old(self)@.len() + replacement@.len() <= usize::MAX,
        ensures
            final(self)@ == old(self)@.take(start as int + 1) + replacement@ + old(self)@.skip(
                end as int + 1,
            ),
    {
        let len = self.0.len();
        assert(end < len);
        splice(&mut self.0, start + 1, end + 1, replacement);
    }

    /// Adds `by` to every entry after entry `row`.
    pub fn add_offsets(&mut self, row: usize, by: usize)
        requires
            forall|k: int|
                row < k < old(self)@.len() ==> (#[trigger] old(self)@[k]) + by <= usize::MAX,
        ensures
            final(self)@.len() == old(self)@.len(),
            forall|k: int| 0 <= k <= row && k < old(self)@.len() ==> final(self)@[k] == old(self)@[k],
            forall|k: int|
                row < k < old(self)@.len() ==> final(self)@[k] == old(self)@[k] + by,
    {
        let len = self.0.len();
        if row >= len {
            return ;
        }
        let mut i: usize = row + 1;
        while i < len
            invariant
                row + 1 <= i <= len,
                len == self@.len(),
                len == old(self)@.len(),
                forall|k: int|
                    row < k < old(self)@.len() ==> (#[trigger] old(self)@[k]) + by <= usize::MAX,
                forall|k: int| 0 <= k <= row ==> self@[k] == old(self)@[k],
                forall|k: int| row < k < i ==> self@[k] == old(self)@[k] + by,
                forall|k: int| i <= k < len ==> self@[k] == old(self)@[k],
            decreases len - i,
        {
            let v = self.0[i];
            self.0.set(i, v + by);
            i = i + 1;
        }
    }

    /// Subtracts `by` from every entry after entry `row`.
    pub fn sub_offsets(&mut self, row: usize, by: usize)
        requires
            forall|k: int| row < k < old(self)@.len() ==> by <= #[trigger] old(self)@[k],
        ensures
            final(self)@.len() == old(self)@.len(),
            forall|k: int| 0 <= k <= row && k < old(self)@.len() ==> final(self)@[k] == old(self)@[k],
            forall|k: int|
                row < k < old(self)@.len() ==> final(self)@[k] == old(self)@[k] - by,
    {
        let len = self.0.len();
        if row >= len {
            return ;
        }
        let mut i: usize = row + 1;
        while i < len
            invariant
                row + 1 <= i <= len,
                len == self@.len(),
                len == old(self)@.len(),
                forall|k: int| row < k < old(self)@.len() ==> by <= #[trigger] old(self)@[k],
                forall|k: int| 0 <= k <= row ==> self@[k] == old(self)@[k],
                forall|k: int| row < k < i ==> self@[k] == old(self)@[k] - by,
                forall|k: int| i <= k < len ==> self@[k] == old(self)@[k],
            decreases len - i,
        {
            let v = self.0[i];
            self.0.set(i, v - by);
            i = i + 1;
        }
    }

    /// True when `row` is the last row of the index.
    pub fn is_last_row(&self, row: usize) -> (r: bool)
        requires
            self@.len() >= 1,
        ensures
            r == (row as int == self@.len() - 1),
    {
        self.0.len() - 1 == row
    }

    /// The number of rows, which equals the number of entries.
    pub fn row_count(&self) -> (r: usize)
        requires
            self@.len() >= 1,
        ensures
            r == self@.len(),
    {
        self.0.len()
    }

    /// The byte position of the first byte of the last row.
    pub fn last_row_start(&self) -> (r: usize)
        requires
            self@.len() >= 1,
            self@[self@.len() - 1] + 1 <= usize::MAX,
        ensures
            r == row_start_at(self@, self@.len() - 1),
    {
        let row = self.0.len() - 1;
        let base = self.0[row];
        if row != 0 {
            base + 1
        } else {
            base
        }
    }

    /// Refills this index from `source`, reusing the allocation.
    pub fn copy_from(&mut self, source: &EolIndexes)
        ensures
            final(self)@ == source@,
    {
        self.0.clear();
        let n = source.0.len();
        let mut i: usize = 0;
        while i < n
            invariant
                0 <= i <= n,
                n == source@.len(),
                self@ == source@.take(i as int),
            decreases n - i,
        {
            self.0.push(source.0[i]);
            i = i + 1;
        }
        proof {
            assert(self@ =~= source@);
        }
    }
}

impl Default for EolIndexes {
    /// The index of an empty document: the 0 sentinel alone.
    fn default() -> (r: Self)
        ensures
            r@ == seq![0usize],
    {
        let mut v: Vec<usize> = Vec::new();
        v.push(0);
        EolIndexes(v)
    }
}

} // verus!
