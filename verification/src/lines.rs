use vstd::prelude::*;

verus! {

/// The line-feed byte, `\n`.
pub const NL: u8 = 10;

/// The carriage-return byte, `\r`.
pub const CR: u8 = 13;

/// True when byte `i` of `s` terminates a line: a line feed, or a carriage
/// return that is not immediately followed by a line feed. The line feed of a
/// `\r\n` pair is the terminator; its carriage return is not.
pub open spec fn is_eol_at(s: Seq<u8>, i: int) -> bool {
    &&& 0 <= i < s.len()
    &&& (s[i] == NL || (s[i] == CR && (i + 1 == s.len() || s[i + 1] != NL)))
}

/// The end-of-line positions among the first `n` bytes of `s`, in increasing
/// order. A byte is classified against the whole of `s`, so a carriage return
/// at position `n - 1` counts only by what follows it in `s`.
pub open spec fn eols_prefix(s: Seq<u8>, n: int) -> Seq<usize>
    decreases n,
{
    if n <= 0 {
        Seq::empty()
    } else if is_eol_at(s, n - 1) {
        eols_prefix(s, n - 1).push((n - 1) as usize)
    } else {
        eols_prefix(s, n - 1)
    }
}

/// All end-of-line positions of `s`, in increasing order.
pub open spec fn eols(s: Seq<u8>) -> Seq<usize> {
    eols_prefix(s, s.len() as int)
}

/// `s` with its positions shifted up by `d`.
pub open spec fn shift_up(s: Seq<usize>, d: int) -> Seq<usize> {
    s.map_values(|v: usize| (v + d) as usize)
}

/// Every entry of `eols_prefix(s, n)` marks an end-of-line byte below `n`,
/// and the entries are strictly increasing.
pub proof fn lemma_eols_prefix_sorted(s: Seq<u8>, n: int)
    requires
        s.len() <= usize::MAX,
    ensures
        forall|j: int|
            0 <= j < eols_prefix(s, n).len() ==> is_eol_at(s, #[trigger] eols_prefix(s, n)[j] as int)
                && eols_prefix(s, n)[j] < n,
        forall|j: int, k: int|
            0 <= j < k < eols_prefix(s, n).len() ==> eols_prefix(s, n)[j] < eols_prefix(s, n)[k],
    decreases n,
{
    if n > 0 {
        lemma_eols_prefix_sorted(s, n - 1);
        let prev = eols_prefix(s, n - 1);
        let cur = eols_prefix(s, n);
        if is_eol_at(s, n - 1) {
            assert(cur == prev.push((n - 1) as usize));
            assert forall|j: int|
                0 <= j < cur.len() implies is_eol_at(s, #[trigger] cur[j] as int) && cur[j]
                < n by {
                if j < prev.len() {
                    assert(cur[j] == prev[j]);
                } else {
                    assert(cur[j] == (n - 1) as usize);
                }
            }
            assert forall|j: int, k: int|
                0 <= j < k < cur.len() implies #[trigger] cur[j] < #[trigger] cur[k] by {
                if k < prev.len() {
                    assert(cur[j] == prev[j] && cur[k] == prev[k]);
                } else {
                    assert(cur[k] == (n - 1) as usize);
                    assert(cur[j] == prev[j]);
                    assert(prev[j] < n - 1);
                }
            }
        } else {
            assert(cur == prev);
        }
    }
}

proof fn lemma_eols_prefix_restrict(a: Seq<u8>, b: Seq<u8>, n: int)
    requires
        0 <= n <= a.len(),
        !(a.len() > 0 && b.len() > 0 && a[a.len() - 1] == CR && b[0] == NL),
    ensures
        eols_prefix(a + b, n) == eols_prefix(a, n),
    decreases n,
{
    if n > 0 {
        lemma_eols_prefix_restrict(a, b, n - 1);
        assert(is_eol_at(a + b, n - 1) == is_eol_at(a, n - 1)) by {
            assert((a + b)[n - 1] == a[n - 1]);
            if n < a.len() {
                assert((a + b)[n] == a[n]);
            } else if b.len() > 0 {
                assert((a + b)[n] == b[0]);
            }
        }
    }
}

proof fn lemma_eols_prefix_extend(a: Seq<u8>, b: Seq<u8>, m: int)
    requires
        0 <= m <= b.len(),
        a.len() + b.len() <= usize::MAX,
        !(a.len() > 0 && b.len() > 0 && a[a.len() - 1] == CR && b[0] == NL),
    ensures
        eols_prefix(a + b, a.len() + m) == eols(a) + shift_up(eols_prefix(b, m), a.len() as int),
    decreases m,
{
    if m == 0 {
        lemma_eols_prefix_restrict(a, b, a.len() as int);
        assert(eols_prefix(b, 0) == Seq::<usize>::empty());
        assert(shift_up(Seq::<usize>::empty(), a.len() as int) =~= Seq::<usize>::empty());
        assert(eols_prefix(a + b, a.len() as int) =~= eols(a) + shift_up(
            eols_prefix(b, 0),
            a.len() as int,
        ));
    } else {
        lemma_eols_prefix_extend(a, b, m - 1);
        let i = a.len() + m - 1;
        assert(is_eol_at(a + b, i) == is_eol_at(b, m - 1)) by {
            assert((a + b)[i] == b[m - 1]);
            if m < b.len() {
                assert((a + b)[i + 1] == b[m]);
            }
        }
        if is_eol_at(b, m - 1) {
            assert(shift_up(eols_prefix(b, m), a.len() as int) =~= shift_up(
                eols_prefix(b, m - 1),
                a.len() as int,
            ).push(i as usize));
            assert(eols_prefix(a + b, a.len() + m) =~= eols(a) + shift_up(
                eols_prefix(b, m),
                a.len() as int,
            ));
        } else {
            assert(eols_prefix(a + b, a.len() + m) == eols_prefix(a + b, a.len() + m - 1));
        }
    }
}

/// Scanning a concatenation equals scanning the parts, provided the seam does
/// not split a `\r\n` pair: the carriage return would count as a terminator of
/// its own in the left part but not in the whole.
pub proof fn lemma_eols_concat(a: Seq<u8>, b: Seq<u8>)
    requires
        a.len() + b.len() <= usize::MAX,
        !(a.len() > 0 && b.len() > 0 && a[a.len() - 1] == CR && b[0] == NL),
    ensures
        eols(a + b) == eols(a) + shift_up(eols(b), a.len() as int),
{
    lemma_eols_prefix_extend(a, b, b.len() as int);
}

/// Produces the end-of-line byte positions of `s`, in increasing order.
///
/// A `\r\n` pair counts as one terminator, reported at the `\n`; a lone `\r`
/// or `\n` is a terminator of its own.
#[verifier::loop_isolation(false)]
pub fn scan_eols(s: &[u8]) -> (r: Vec<usize>)
    ensures
        r@ == eols(s@),
{
    let mut r: Vec<usize> = Vec::new();
    let n = s.len();
    let mut i: usize = 0;
    while i < n
        invariant
            0 <= i <= n,
            r@ == eols_prefix(s@, i as int),
        decreases n - i,
    {
        let b = s[i];
        if b == NL {
            r.push(i);
        } else if b == CR {
            if i + 1 == n || s[i + 1] != NL {
                r.push(i);
            }
        }
        i = i + 1;
    }
    r
}

/// The number of trailing bytes of `s` that form one line terminator:
/// 2 for `\r\n`, 1 for a lone `\n` or `\r`, 0 otherwise.
pub open spec fn trim_eol_len(s: Seq<u8>) -> int {
    if s.len() >= 2 && s[s.len() - 2] == CR && s[s.len() - 1] == NL {
        2
    } else if s.len() >= 1 && (s[s.len() - 1] == NL || s[s.len() - 1] == CR) {
        1
    } else {
        0
    }
}

/// `s` with one trailing line terminator removed, if it ends with one.
pub open spec fn trim_eol(s: Seq<u8>) -> Seq<u8> {
    s.take(s.len() - trim_eol_len(s))
}

/// Removes one trailing line terminator from a line slice.
pub(crate) fn trim_eol_from_end<'a>(s: &'a [u8]) -> (r: &'a [u8])
    ensures
        r@ == trim_eol(s@),
{
    let n = s.len();
    if n >= 2 && s[n - 2] == CR && s[n - 1] == NL {
        vstd::slice::slice_subrange(s, 0, n - 2)
    } else if n >= 1 && (s[n - 1] == NL || s[n - 1] == CR) {
        vstd::slice::slice_subrange(s, 0, n - 1)
    } else {
        vstd::slice::slice_subrange(s, 0, n)
    }
}

} // verus!
