//! Selections and the selection-set history: a navigation-only undo/redo
//! stack, independent of the edit history, whose stored selections are
//! remapped (never cleared) when the text changes.

use vstd::prelude::*;

verus! {

use crate::char_index_range::{remap_spec, CharIndexRange};
use crate::position::CharIndex;

/// A single selection: a character range.
#[derive(Clone, Copy, PartialEq, Eq, Structural, Debug)]
pub struct Selection {
    pub range: CharIndexRange,
}

impl Selection {
    pub fn new(range: CharIndexRange) -> (res: Selection)
        ensures
            res.range == range,
    {
        Selection { range }
    }

    pub fn range(&self) -> (res: CharIndexRange)
        ensures
            res == self.range,
    {
        self.range
    }
}

/// How a selection is remapped by an edit replacing `[es, ee)` (of a text of
/// `old_len` characters) with `nl` characters: it is first clamped into the
/// old text, then shifted like any range; a selection consumed by the edit
/// collapses to a cursor at the end of the inserted text.
pub open spec fn sel_remap_spec(rs: int, re: int, es: int, ee: int, nl: int, old_len: int) -> (
    int,
    int,
) {
    let re1 = if re <= old_len {
        re
    } else {
        old_len
    };
    let rs1 = if rs <= re1 {
        rs
    } else {
        re1
    };
    match remap_spec(rs1, re1, es, ee, nl) {
        Some((s, e)) => (s, e),
        None => (es + nl, es + nl),
    }
}

/// The ranges of a selection set, remapped pointwise by an edit.
pub open spec fn remap_ranges(
    rs: Seq<(int, int)>,
    es: int,
    ee: int,
    nl: int,
    old_len: int,
) -> Seq<(int, int)> {
    rs.map_values(|p: (int, int)| sel_remap_spec(p.0, p.1, es, ee, nl, old_len))
}

/// The ranges of every stored selection set, remapped pointwise by an edit.
pub open spec fn remap_sel_views(
    ss: Seq<Seq<(int, int)>>,
    es: int,
    ee: int,
    nl: int,
    old_len: int,
) -> Seq<Seq<(int, int)>> {
    ss.map_values(|rs: Seq<(int, int)>| remap_ranges(rs, es, ee, nl, old_len))
}

/// A set of selections. The first selection is the primary one.
#[derive(Clone, Debug)]
pub struct SelectionSet {
    pub selections: Vec<Selection>,
}

impl SelectionSet {
    pub fn new(selections: Vec<Selection>) -> (res: SelectionSet)
        ensures
            res.selections@ == selections@,
    {
        SelectionSet { selections }
    }

    /// A set holding one empty selection at the start of the text.
    pub fn initial() -> (res: SelectionSet)
        ensures
            res.selections@.len() == 1,
            res.selections@[0].range == (CharIndexRange {
                start: CharIndex(0usize),
                end: CharIndex(0usize),
            }),
    {
        let mut selections: Vec<Selection> = Vec::new();
        selections.push(
            Selection { range: CharIndexRange { start: CharIndex(0), end: CharIndex(0) } },
        );
        SelectionSet { selections }
    }

    pub open spec fn ranges(self) -> Seq<(int, int)> {
        self.selections@.map_values(
            |s: Selection| (s.range.start.0 as int, s.range.end.0 as int),
        )
    }

    /// An explicit copy (selections are plain values).
    pub fn copy_of(&self) -> (res: SelectionSet)
        ensures
            res.selections@ == self.selections@,
    {
        let mut selections: Vec<Selection> = Vec::new();
        let mut i: usize = 0;
        let n = self.selections.len();
        while i < n
            invariant
                i <= n == self.selections@.len(),
                selections@ =~= self.selections@.take(i as int),
            decreases n - i,
        {
            selections.push(self.selections[i]);
            proof {
                assert(selections@ =~= self.selections@.take(i + 1));
            }
            i = i + 1;
        }
        proof {
            assert(self.selections@.take(n as int) =~= self.selections@);
        }
        SelectionSet { selections }
    }

    /// The selection set with every selection remapped by an edit; see
    /// [`sel_remap_spec`].
    pub fn remapped(&self, es: usize, ee: usize, nl: usize, old_len: usize) -> (res: SelectionSet)
        requires
            es <= ee <= old_len,
            old_len - (ee - es) + nl <= usize::MAX,
        ensures
            res.ranges() == remap_ranges(
                self.ranges(),
                es as int,
                ee as int,
                nl as int,
                old_len as int,
            ),
            res.selections@.len() == self.selections@.len(),
            forall|i: int|
                0 <= i < self.selections@.len() ==> (#[trigger] res.selections@[i]).range.start.0
                    == sel_remap_spec(
                    self.selections@[i].range.start.0 as int,
                    self.selections@[i].range.end.0 as int,
                    es as int,
                    ee as int,
                    nl as int,
                    old_len as int,
                ).0 && res.selections@[i].range.end.0 == sel_remap_spec(
                    self.selections@[i].range.start.0 as int,
                    self.selections@[i].range.end.0 as int,
                    es as int,
                    ee as int,
                    nl as int,
                    old_len as int,
                ).1,
    {
        let mut res: Vec<Selection> = Vec::new();
        let mut i: usize = 0;
        let n = self.selections.len();
        while i < n
            invariant
                i <= n == self.selections@.len(),
                es <= ee <= old_len,
                old_len - (ee - es) + nl <= usize::MAX,
                res@.len() == i,
                forall|k: int|
                    0 <= k < i ==> (#[trigger] res@[k]).range.start.0 == sel_remap_spec(
                        self.selections@[k].range.start.0 as int,
                        self.selections@[k].range.end.0 as int,
                        es as int,
                        ee as int,
                        nl as int,
                        old_len as int,
                    ).0 && res@[k].range.end.0 == sel_remap_spec(
                        self.selections@[k].range.start.0 as int,
                        self.selections@[k].range.end.0 as int,
                        es as int,
                        ee as int,
                        nl as int,
                        old_len as int,
                    ).1,
            decreases n - i,
        {
            let sel = self.selections[i];
            let re1 = if sel.range.end.0 <= old_len {
                sel.range.end.0
            } else {
                old_len
            };
            let rs1 = if sel.range.start.0 <= re1 {
                sel.range.start.0
            } else {
                re1
            };
            let clamped = CharIndexRange { start: CharIndex(rs1), end: CharIndex(re1) };
            let remapped = match clamped.apply_edit_shift(es, ee, nl, old_len) {
                Some(r) => r,
                None => CharIndexRange { start: CharIndex(es + nl), end: CharIndex(es + nl) },
            };
            res.push(Selection { range: remapped });
            i = i + 1;
        }
        let result = SelectionSet { selections: res };
        proof {
            assert(result.ranges() =~= remap_ranges(
                self.ranges(),
                es as int,
                ee as int,
                nl as int,
                old_len as int,
            )) by {
                assert forall|k: int|
                    0 <= k < self.selections@.len() implies #[trigger] result.ranges()[k]
                    == remap_ranges(
                    self.ranges(),
                    es as int,
                    ee as int,
                    nl as int,
                    old_len as int,
                )[k] by {
                    assert(result.ranges()[k] == (
                        result.selections@[k].range.start.0 as int,
                        result.selections@[k].range.end.0 as int,
                    ));
                    assert(self.ranges()[k] == (
                        self.selections@[k].range.start.0 as int,
                        self.selections@[k].range.end.0 as int,
                    ));
                }
            }
        }
        result
    }
}

/// The ranges of a list of selection sets.
pub open spec fn sel_views(items: Seq<SelectionSet>) -> Seq<Seq<(int, int)>> {
    items.map_values(|s: SelectionSet| s.ranges())
}

impl Default for SelectionSet {
    /// The default selection set: a single cursor at the start of the text.
    fn default() -> (res: SelectionSet)
        ensures
            res.selections@.len() == 1,
            res.selections@[0].range == (CharIndexRange {
                start: CharIndex(0usize),
                end: CharIndex(0usize),
            }),
    {
        SelectionSet::initial()
    }
}

/// The navigation history of selection sets: `push` records a new set
/// (discarding any redo tail), `previous`/`next` step through it. Text edits
/// remap the stored sets in place.
pub struct SelectionHistory {
    pub items: Vec<SelectionSet>,
    pub current: usize,
}

impl SelectionHistory {
    pub open spec fn wf(self) -> bool {
        self.current <= self.items@.len()
    }

    pub fn new() -> (res: SelectionHistory)
        ensures
            res.wf(),
            res.items@.len() == 0,
            res.current == 0,
    {
        SelectionHistory { items: Vec::new(), current: 0 }
    }

    /// Record a set as the newest point of the history, discarding anything
    /// that had been undone.
    pub fn push(&mut self, set: SelectionSet)
        requires
            old(self).wf(),
        ensures
            final(self).wf(),
            final(self).items@.len() == old(self).current + 1,
            final(self).current == old(self).current + 1,
            final(self).items@[old(self).current as int].selections@ == set.selections@,
            forall|k: int|
                0 <= k < old(self).current ==> final(self).items@[k] == old(self).items@[k],
    {
        self.items.truncate(self.current);
        self.items.push(set);
        self.current = self.items.len();
    }

    /// Step back: returns the set before the current one, or `None` at the
    /// start of the history.
    pub fn previous(&mut self) -> (res: Option<SelectionSet>)
        requires
            old(self).wf(),
        ensures
            final(self).wf(),
            final(self).items@ == old(self).items@,
            old(self).current >= 2 ==> final(self).current == old(self).current - 1 && res is Some,
            old(self).current < 2 ==> final(self).current == old(self).current && res is None,
            match res {
                Some(s) => s.selections@ == old(self).items@[old(self).current - 2].selections@,
                None => true,
            },
    {
        if self.current >= 2 {
            self.current = self.current - 1;
            Some(self.items[self.current - 1].copy_of())
        } else {
            None
        }
    }

    /// Step forward after [`Self::previous`], or `None` at the newest point.
    pub fn next(&mut self) -> (res: Option<SelectionSet>)
        requires
            old(self).wf(),
        ensures
            final(self).wf(),
            final(self).items@ == old(self).items@,
            old(self).current < old(self).items@.len() ==> final(self).current == old(self).current
                + 1 && res is Some,
            old(self).current >= old(self).items@.len() ==> final(self).current == old(
                self,
            ).current && res is None,
            match res {
                Some(s) => s.selections@ == old(self).items@[old(self).current as int].selections@,
                None => true,
            },
    {
        if self.current < self.items.len() {
            let r = self.items[self.current].copy_of();
            self.current = self.current + 1;
            Some(r)
        } else {
            None
        }
    }

    /// Remap every stored selection set by an edit; see [`sel_remap_spec`].
    pub fn apply_edit_remap(&mut self, es: usize, ee: usize, nl: usize, old_len: usize)
        requires
            old(self).wf(),
            es <= ee <= old_len,
            old_len - (ee - es) + nl <= usize::MAX,
        ensures
            final(self).wf(),
            final(self).current == old(self).current,
            final(self).items@.len() == old(self).items@.len(),
            sel_views(final(self).items@) == remap_sel_views(
                sel_views(old(self).items@),
                es as int,
                ee as int,
                nl as int,
                old_len as int,
            ),
    {
        let mut items: Vec<SelectionSet> = Vec::new();
        let mut i: usize = 0;
        let n = self.items.len();
        while i < n
            invariant
                i <= n == self.items@.len(),
                self.items@ == old(self).items@,
                self.current == old(self).current,
                old(self).wf(),
                es <= ee <= old_len,
                old_len - (ee - es) + nl <= usize::MAX,
                items@.len() == i,
                forall|k: int|
                    0 <= k < i ==> (#[trigger] items@[k]).ranges() == remap_ranges(
                        old(self).items@[k].ranges(),
                        es as int,
                        ee as int,
                        nl as int,
                        old_len as int,
                    ),
            decreases n - i,
        {
            items.push(self.items[i].remapped(es, ee, nl, old_len));
            i = i + 1;
        }
        self.items = items;
        proof {
            assert(sel_views(self.items@) =~= remap_sel_views(
                sel_views(old(self).items@),
                es as int,
                ee as int,
                nl as int,
                old_len as int,
            )) by {
                assert forall|k: int|
                    0 <= k < self.items@.len() implies #[trigger] sel_views(self.items@)[k]
                    == remap_sel_views(
                    sel_views(old(self).items@),
                    es as int,
                    ee as int,
                    nl as int,
                    old_len as int,
                )[k] by {
                    assert(sel_views(self.items@)[k] == self.items@[k].ranges());
                    assert(sel_views(old(self).items@)[k] == old(self).items@[k].ranges());
                    assert(remap_sel_views(
                        sel_views(old(self).items@),
                        es as int,
                        ee as int,
                        nl as int,
                        old_len as int,
                    )[k] == remap_ranges(
                        sel_views(old(self).items@)[k],
                        es as int,
                        ee as int,
                        nl as int,
                        old_len as int,
                    ));
                }
            }
        }
    }
}

} // verus!
