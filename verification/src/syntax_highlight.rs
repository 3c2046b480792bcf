//! Highlight spans and the batch-id epoch that guards asynchronous highlight
//! results: a result computed for an older epoch must never be applied.

use vstd::prelude::*;

verus! {

use crate::char_index_range::remap_spec;

/// A styled byte range, produced by an asynchronous highlighter.
#[derive(Clone, Copy, PartialEq, Eq, Structural, Debug)]
pub struct HighlightedSpan {
    pub byte_start: usize,
    pub byte_end: usize,
    pub style_key: usize,
}

/// The spans attached to a buffer, sorted by range start by their producer.
/// The visible-window shifting in [`HighlightedSpans::apply_edit_shift`]
/// deliberately leaves spans beyond the window stale, so the stored order can
/// degrade between highlight results; the next accepted result replaces the
/// collection wholesale.
pub struct HighlightedSpans(pub Vec<HighlightedSpan>);

/// Monotonically advancing edit epoch. Each applied transaction advances it;
/// a highlight result is applied only if it was requested at the current
/// epoch.
#[derive(Clone, Copy, PartialEq, Eq, Structural, Debug)]
pub struct SyntaxHighlightRequestBatchId(pub u64);

impl SyntaxHighlightRequestBatchId {
    pub fn new() -> (res: SyntaxHighlightRequestBatchId)
        ensures
            res.0 == 0,
    {
        SyntaxHighlightRequestBatchId(0)
    }

    /// Advance the epoch. The new value always differs from the old one.
    pub fn increment(&mut self)
        ensures
            final(self).0 == if old(self).0 == u64::MAX {
                0u64
            } else {
                (old(self).0 + 1) as u64
            },
            final(self).0 != old(self).0,
    {
        if self.0 == u64::MAX {
            self.0 = 0;
        } else {
            self.0 = self.0 + 1;
        }
    }
}

/// How one span is shifted when an edit replaced the byte range `[bs, be)`
/// with `nb` bytes, re-justifying only the window below byte `w` (the end of
/// the visible region, in pre-edit coordinates):
/// - a span starting at or past `w` is deliberately left stale;
/// - otherwise it is remapped like a character range (dropped when the edit
///   consumed it), and additionally dropped if its shifted end would not fit
///   in `usize`.
pub open spec fn shift_span(
    sp: HighlightedSpan,
    bs: int,
    be: int,
    nb: int,
    w: int,
) -> Option<HighlightedSpan> {
    if sp.byte_start > sp.byte_end {
        None
    } else if sp.byte_start >= w {
        Some(sp)
    } else {
        match remap_spec(sp.byte_start as int, sp.byte_end as int, bs, be, nb) {
            Some((s, e)) => if 0 <= s && e <= usize::MAX && s <= e {
                Some(HighlightedSpan { byte_start: s as usize, byte_end: e as usize, style_key: sp.style_key })
            } else {
                None
            },
            None => None,
        }
    }
}

/// All spans of a collection, shifted by [`shift_span`], dropped spans
/// removed, order kept.
pub open spec fn shift_spans(
    ss: Seq<HighlightedSpan>,
    bs: int,
    be: int,
    nb: int,
    w: int,
) -> Seq<HighlightedSpan>
    decreases ss.len(),
{
    if ss.len() == 0 {
        Seq::<HighlightedSpan>::empty()
    } else {
        shift_spans(ss.drop_last(), bs, be, nb, w) + match shift_span(ss.last(), bs, be, nb, w) {
            Some(sp) => seq![sp],
            None => Seq::<HighlightedSpan>::empty(),
        }
    }
}

impl HighlightedSpans {
    pub fn new() -> (res: HighlightedSpans)
        ensures
            res.0@ =~= Seq::<HighlightedSpan>::empty(),
    {
        HighlightedSpans(Vec::new())
    }

    /// Remap every span for an edit that replaced bytes `[byte_start,
    /// byte_end)` with `new_bytes` bytes, touching only spans that start
    /// before the visible window end `window_end`.
    pub fn apply_edit_shift(
        &mut self,
        byte_start: usize,
        byte_end: usize,
        new_bytes: usize,
        window_end: usize,
    )
        requires
            byte_start <= byte_end,
        ensures
            final(self).0@ == shift_spans(
                old(self).0@,
                byte_start as int,
                byte_end as int,
                new_bytes as int,
                window_end as int,
            ),
    {
        let ghost orig = self.0@;
        let mut res: Vec<HighlightedSpan> = Vec::new();
        let mut i: usize = 0;
        let n = self.0.len();
        proof {
            assert(res@ =~= shift_spans(
                orig.take(0),
                byte_start as int,
                byte_end as int,
                new_bytes as int,
                window_end as int,
            ));
        }
        while i < n
            invariant
                i <= n == self.0@.len(),
                self.0@ == orig,
                byte_start <= byte_end,
                res@ =~= shift_spans(
                    orig.take(i as int),
                    byte_start as int,
                    byte_end as int,
                    new_bytes as int,
                    window_end as int,
                ),
            decreases n - i,
        {
            let sp = self.0[i];
            if sp.byte_start > sp.byte_end {
                // malformed producer span: dropped
            } else if sp.byte_start >= window_end {
                res.push(sp);
            } else if sp.byte_end <= byte_start {
                res.push(sp);
            } else if sp.byte_start >= byte_end {
                // shift by the byte delta; drop the span if it no longer fits
                let s0 = sp.byte_start - byte_end;
                let e0 = sp.byte_end - byte_end;
                if let Some(s1) = s0.checked_add(byte_start) {
                    if let Some(s) = s1.checked_add(new_bytes) {
                        if let Some(e1) = e0.checked_add(byte_start) {
                            if let Some(e) = e1.checked_add(new_bytes) {
                                res.push(
                                    HighlightedSpan {
                                        byte_start: s,
                                        byte_end: e,
                                        style_key: sp.style_key,
                                    },
                                );
                            }
                        }
                    }
                }
            } else if byte_start <= sp.byte_start && sp.byte_end <= byte_end {
                // consumed
            } else if sp.byte_start < byte_start && sp.byte_end <= byte_end {
                res.push(
                    HighlightedSpan {
                        byte_start: sp.byte_start,
                        byte_end: byte_start,
                        style_key: sp.style_key,
                    },
                );
            } else if byte_start <= sp.byte_start {
                if let Some(s) = byte_start.checked_add(new_bytes) {
                    let e0 = sp.byte_end - byte_end;
                    if let Some(e1) = e0.checked_add(byte_start) {
                        if let Some(e) = e1.checked_add(new_bytes) {
                            res.push(
                                HighlightedSpan { byte_start: s, byte_end: e, style_key: sp.style_key },
                            );
                        }
                    }
                }
            } else {
                let e0 = sp.byte_end - byte_end;
                if let Some(e1) = e0.checked_add(byte_start) {
                    if let Some(e) = e1.checked_add(new_bytes) {
                        if sp.byte_start <= e {
                            res.push(
                                HighlightedSpan {
                                    byte_start: sp.byte_start,
                                    byte_end: e,
                                    style_key: sp.style_key,
                                },
                            );
                        }
                    }
                }
            }
            proof {
                assert(orig.take(i + 1).drop_last() =~= orig.take(i as int));
                assert(orig.take(i + 1).last() == orig[i as int]);
                assert(res@ =~= shift_spans(
                    orig.take(i + 1),
                    byte_start as int,
                    byte_end as int,
                    new_bytes as int,
                    window_end as int,
                ));
            }
            i = i + 1;
        }
        proof {
            assert(orig.take(n as int) =~= orig);
        }
        self.0 = res;
    }
}

} // verus!
