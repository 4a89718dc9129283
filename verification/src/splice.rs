use vstd::prelude::*;

verus! {

/// Replaces `v[start..end]` with the contents of `items`.
///
/// The tail of the vector is moved at most once: left when the replacement is
/// shorter than the replaced range, right when it is longer, and not at all
/// when the lengths match.
#[verifier::loop_isolation(false)]
pub(crate) fn splice<T: Copy>(v: &mut Vec<T>, start: usize, end: usize, items: &[T])
    requires
        start <= end <= old(v)@.len(),
        old(v)@.len() - (end - start) + items@.len() <= usize::MAX,
    ensures
        final(v)@ == old(v)@.take(start as int) + items@ + old(v)@.skip(end as int),
{
    let ghost orig = v@;
    let m = items.len();
    let d = end - start;
    let len = v.len();
    if m <= d {
        let mut i: usize = 0;
        while i < m
            invariant
                0 <= i <= m,
                v@.len() == len,
                forall|k: int| start <= k < start + i ==> v@[k] == items@[k - start],
                forall|k: int| 0 <= k < len && !(start <= k < start + i) ==> v@[k] == orig[k],
            decreases m - i,
        {
            v.set(start + i, items[i]);
            i = i + 1;
        }
        let ghost mid = v@;
        proof {
            assert(forall|k: int| 0 <= k < len && !(start <= k < start + m) ==> mid[k] == orig[k]);
            assert(forall|k: int| start <= k < start + m ==> mid[k] == items@[k - start]);
        }
        let shift = d - m;
        if shift > 0 {
            let mut j: usize = end;
            while j < len
                invariant
                    end <= j <= len,
                    v@.len() == len,
                    forall|k: int| 0 <= k < start + m ==> v@[k] == mid[k],
                    forall|k: int| start + m <= k < j - shift ==> v@[k] == mid[k + shift],
                    forall|k: int| j - shift <= k < len ==> v@[k] == mid[k],
                decreases len - j,
            {
                let x = v[j];
                v.set(j - shift, x);
                j = j + 1;
            }
        }
        let ghost pre = v@;
        proof {
            assert(forall|k: int| 0 <= k < start + m ==> pre[k] == mid[k]);
            assert(forall|k: int| start + m <= k < len - shift ==> pre[k] == mid[k + shift]);
        }
        v.truncate(len - shift);
        assert(v@ =~= orig.take(start as int) + items@ + orig.skip(end as int)) by {
            assert(v@ == pre.subrange(0, len - shift));
        }
    } else {
        let grow = m - d;
        let filler = items[0];
        let mut g: usize = 0;
        while g < grow
            invariant
                0 <= g <= grow,
                v@.len() == len + g,
                forall|k: int| 0 <= k < len ==> v@[k] == orig[k],
            decreases grow - g,
        {
            v.push(filler);
            g = g + 1;
        }
        let mut j: usize = len;
        while j > end
            invariant
                end <= j <= len,
                v@.len() == len + grow,
                forall|k: int| 0 <= k < j + grow && k < len ==> v@[k] == orig[k],
                forall|k: int| j + grow <= k < len + grow ==> v@[k] == orig[k - grow],
            decreases j,
        {
            j = j - 1;
            let x = v[j];
            v.set(j + grow, x);
        }
        let mut i: usize = 0;
        while i < m
            invariant
                0 <= i <= m,
                v@.len() == len + grow,
                forall|k: int| 0 <= k < start ==> v@[k] == orig[k],
                forall|k: int| start <= k < start + i ==> v@[k] == items@[k - start],
                forall|k: int| end + grow <= k < len + grow ==> v@[k] == orig[k - grow],
            decreases m - i,
        {
            v.set(start + i, items[i]);
            i = i + 1;
        }
        assert(v@ =~= orig.take(start as int) + items@ + orig.skip(end as int));
    }
}

} // verus!
