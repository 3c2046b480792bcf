//! Half-open character ranges `[start, end)` — the canonical range type of
//! edits, marks, diagnostics and selections — and how a range is remapped
//! when an edit replaces `[edit_start, edit_end)` with `new_len` characters.

use vstd::prelude::*;

verus! {

use crate::position::CharIndex;

/// Half-open character range `[start, end)`. Well-formed when
/// `start <= end`.
#[derive(Clone, Copy, PartialEq, Eq, Structural, Debug)]
pub struct CharIndexRange {
    pub start: CharIndex,
    pub end: CharIndex,
}

impl CharIndexRange {
    pub open spec fn wf(self) -> bool {
        self.start.0 <= self.end.0
    }

    /// Well-formed and contained in a text of `len` characters.
    pub open spec fn wf_in(self, len: int) -> bool {
        self.wf() && self.end.0 <= len
    }

    pub fn new(start: usize, end: usize) -> (res: CharIndexRange)
        ensures
            res.start.0 == start,
            res.end.0 == end,
    {
        CharIndexRange { start: CharIndex(start), end: CharIndex(end) }
    }

    pub fn len(&self) -> (res: usize)
        requires
            self.wf(),
        ensures
            res == self.end.0 - self.start.0,
    {
        self.end.0 - self.start.0
    }
}

/// How the range `[rs, re)` is transformed when the edit replaces
/// `[es, ee)` with `nl` new characters:
/// - entirely before the edited region: unchanged;
/// - entirely at or after it: shifted by the edit's length delta;
/// - wholly inside the replaced region: dropped (`None`) — the annotated
///   text no longer exists;
/// - straddling one or both boundaries: clipped to the surviving part and
///   resized by the delta.
pub open spec fn remap_spec(rs: int, re: int, es: int, ee: int, nl: int) -> Option<(int, int)> {
    let delta = nl - (ee - es);
    if re <= es {
        Some((rs, re))
    } else if rs >= ee {
        Some((rs + delta, re + delta))
    } else if es <= rs && re <= ee {
        None
    } else if rs < es && re <= ee {
        Some((rs, es))
    } else if es <= rs {
        Some((es + nl, re + delta))
    } else {
        Some((rs, re + delta))
    }
}

impl CharIndexRange {
    /// Remap this range under an edit that replaced the character range
    /// `[edit_start, edit_end)` of a text of `old_len` characters with
    /// `new_len` characters. Returns `None` exactly when the range was
    /// wholly consumed; otherwise the remapped range, still well-formed and
    /// inside the post-edit text.
    pub fn apply_edit_shift(
        &self,
        edit_start: usize,
        edit_end: usize,
        new_len: usize,
        old_len: usize,
    ) -> (res: Option<CharIndexRange>)
        requires
            edit_start <= edit_end <= old_len,
            old_len - (edit_end - edit_start) + new_len <= usize::MAX,
            self.wf_in(old_len as int),
        ensures
            match res {
                Some(r) => {
                    &&& Some((r.start.0 as int, r.end.0 as int)) == remap_spec(
                        self.start.0 as int,
                        self.end.0 as int,
                        edit_start as int,
                        edit_end as int,
                        new_len as int,
                    )
                    &&& r.wf_in(old_len - (edit_end - edit_start) + new_len)
                },
                None => remap_spec(
                    self.start.0 as int,
                    self.end.0 as int,
                    edit_start as int,
                    edit_end as int,
                    new_len as int,
                ) is None,
            },
    {
        let rs = self.start.0;
        let re = self.end.0;
        if re <= edit_start {
            Some(*self)
        } else if rs >= edit_end {
            Some(
                CharIndexRange::new(
                    rs - edit_end + edit_start + new_len,
                    re - edit_end + edit_start + new_len,
                ),
            )
        } else if edit_start <= rs && re <= edit_end {
            None
        } else if rs < edit_start && re <= edit_end {
            Some(CharIndexRange::new(rs, edit_start))
        } else if edit_start <= rs {
            Some(CharIndexRange::new(edit_start + new_len, re - edit_end + edit_start + new_len))
        } else {
            Some(CharIndexRange::new(rs, re - edit_end + edit_start + new_len))
        }
    }
}

} // verus!
