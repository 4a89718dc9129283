use vstd::prelude::*;
use vstd::utf8::{
    is_char_boundary, is_char_boundary_iff_not_is_continuation_byte,
    is_char_boundary_start_end_of_seq,
};

use crate::text::Text;

verus! {

/// Read access to a store of text by byte range.
pub trait Queryable {
    /// The stored bytes.
    spec fn view_bytes(&self) -> Seq<u8>;

    /// What the store expects of itself before it can be queried.
    spec fn query_wf(&self) -> bool;

    /// Whether the byte range `start .. end` can be handed out: it must lie
    /// within the bytes and cut whole characters.
    spec fn gettable(&self, start: int, end: int) -> bool;

    /// The bytes in `start .. end`, or `None` when the range is out of bounds
    /// or does not cut whole characters.
    fn try_get_single<'a>(&'a self, start: usize, end: usize) -> (r: Option<&'a [u8]>)
        requires
            self.query_wf(),
        ensures
            match r {
                Some(s) => self.gettable(start as int, end as int) && s@
                    == self.view_bytes().subrange(start as int, end as int),
                None => !self.gettable(start as int, end as int),
            },
    ;

    /// The length of the stored bytes.
    fn len(&self) -> (r: usize)
        requires
            self.query_wf(),
        ensures
            r == self.view_bytes().len(),
    ;

    /// True when nothing is stored.
    fn is_empty(&self) -> (r: bool)
        requires
            self.query_wf(),
        ensures
            r == (self.view_bytes().len() == 0),
    ;
}

impl Queryable for Text {
    open spec fn view_bytes(&self) -> Seq<u8> {
        self.text@
    }

    open spec fn query_wf(&self) -> bool {
        self.wf()
    }

    open spec fn gettable(&self, start: int, end: int) -> bool {
        &&& 0 <= start <= end <= self.text@.len()
        &&& is_char_boundary(self.text@, start)
        &&& is_char_boundary(self.text@, end)
    }

    fn try_get_single<'a>(&'a self, start: usize, end: usize) -> (r: Option<&'a [u8]>) {
        if !(start <= end && end <= self.text.len()) {
            return None;
        }
        proof {
            is_char_boundary_start_end_of_seq(self.text@);
        }
        let tlen = self.text.len();
        let start_ok = start == tlen || {
            let b = self.text[start];
            proof {
                is_char_boundary_iff_not_is_continuation_byte(self.text@, start as int);
            }
            !(0x80 <= b && b < 0xC0)
        };
        let end_ok = end == tlen || {
            let b = self.text[end];
            proof {
                is_char_boundary_iff_not_is_continuation_byte(self.text@, end as int);
            }
            !(0x80 <= b && b < 0xC0)
        };
        if start_ok && end_ok {
            Some(vstd::slice::slice_subrange(self.text.as_slice(), start, end))
        } else {
            None
        }
    }

    fn len(&self) -> (r: usize) {
        self.text.len()
    }

    fn is_empty(&self) -> (r: bool) {
        self.text.len() == 0
    }
}

} // verus!
