//! Edits and edit transactions: an atomic, invertible group of text
//! replacements. Every range of a transaction is expressed against the text
//! as it was before the transaction; the edits of one transaction must be
//! sorted and pairwise disjoint (overlap is caller error). The model
//! [`apply_edits`] splices the edits from the last to the first, so each
//! stored range is used verbatim, and [`inverse_views`] is the transaction
//! that maps the result back; [`lemma_apply_inverse`] proves that round trip
//! exact.

use vstd::prelude::*;

verus! {

use crate::char_index_range::CharIndexRange;
use crate::position::CharIndex;
use vstd::string::StrSliceExecFns;

/// One replacement: the text at `range` (which must be `old` when the edit is
/// applied) is replaced by `new`.
#[derive(Debug)]
pub struct Edit {
    pub range: CharIndexRange,
    pub old: String,
    pub new: String,
}

/// The mathematical content of an [`Edit`]: replace `[lo, hi)`, which holds
/// `del`, with `ins`.
pub ghost struct EditView {
    pub lo: int,
    pub hi: int,
    pub del: Seq<char>,
    pub ins: Seq<char>,
}

impl EditView {
    pub open spec fn wf(self) -> bool {
        0 <= self.lo <= self.hi
    }

    /// Net change in text length caused by this edit.
    pub open spec fn delta(self) -> int {
        self.ins.len() - (self.hi - self.lo)
    }
}

impl Edit {
    pub open spec fn ev(self) -> EditView {
        EditView {
            lo: self.range.start.0 as int,
            hi: self.range.end.0 as int,
            del: self.old@,
            ins: self.new@,
        }
    }

    pub fn new(range: CharIndexRange, old: String, new: String) -> (res: Edit)
        ensures
            res.ev() == (EditView {
                lo: range.start.0 as int,
                hi: range.end.0 as int,
                del: old@,
                ins: new@,
            }),
    {
        Edit { range, old, new }
    }

    /// An explicit copy; the derived `Clone` would say nothing about the
    /// copied text.
    pub fn duplicate(&self) -> (res: Edit)
        ensures
            res.ev() == self.ev(),
    {
        Edit { range: self.range, old: self.old.clone(), new: self.new.clone() }
    }
}

pub open spec fn views_of(es: Seq<Edit>) -> Seq<EditView> {
    es.map_values(|e: Edit| e.ev())
}

/// Replace `[ed.lo, ed.hi)` of `text` with `ed.ins`.
pub open spec fn splice(text: Seq<char>, ed: EditView) -> Seq<char> {
    text.take(ed.lo) + ed.ins + text.skip(ed.hi)
}

/// Apply a sorted, disjoint batch of edits whose ranges address `text`:
/// splicing from the last edit to the first leaves every remaining range
/// valid, so each range is used verbatim.
pub open spec fn apply_edits(text: Seq<char>, es: Seq<EditView>) -> Seq<char>
    decreases es.len(),
{
    if es.len() == 0 {
        text
    } else {
        apply_edits(splice(text, es.last()), es.drop_last())
    }
}

/// Ranges are well-formed, within a text of length `len`, sorted and
/// pairwise disjoint.
pub open spec fn tx_valid(es: Seq<EditView>, len: int) -> bool {
    &&& forall|i: int| 0 <= i < es.len() ==> (#[trigger] es[i]).wf()
    &&& forall|i: int| 0 <= i < es.len() ==> (#[trigger] es[i]).hi <= len
    &&& forall|i: int| 0 <= i < es.len() - 1 ==> (#[trigger] es[i]).hi <= es[i + 1].lo
}

/// Each edit's `del` is exactly the text its range addresses.
pub open spec fn olds_match(es: Seq<EditView>, text: Seq<char>) -> bool {
    forall|i: int|
        0 <= i < es.len() ==> (#[trigger] es[i]).del == text.subrange(es[i].lo, es[i].hi)
}

pub open spec fn total_delta(es: Seq<EditView>) -> int
    decreases es.len(),
{
    if es.len() == 0 {
        0
    } else {
        total_delta(es.drop_last()) + es.last().delta()
    }
}

/// The inverse transaction: edit `i` restores `del` at the position its
/// replacement occupies in the post-transaction text, which is its original
/// position shifted by the length deltas of the edits before it.
pub open spec fn inverse_views(es: Seq<EditView>) -> Seq<EditView>
    decreases es.len(),
{
    if es.len() == 0 {
        Seq::<EditView>::empty()
    } else {
        let e = es.last();
        let d = total_delta(es.drop_last());
        inverse_views(es.drop_last()).push(
            EditView { lo: e.lo + d, hi: e.lo + d + e.ins.len(), del: e.ins, ins: e.del },
        )
    }
}

/// The machine-limit side condition for materializing the inverse: every
/// inverse range must fit in `usize`.
pub open spec fn inverse_fits(es: Seq<EditView>) -> bool {
    forall|i: int|
        0 <= i < es.len() ==> (#[trigger] es[i]).lo + total_delta(es.take(i)) + es[i].ins.len()
            <= usize::MAX
}

/// A transaction may be applied when its ranges are valid for the text and
/// its inverse is representable.
pub open spec fn tx_applicable(es: Seq<EditView>, len: int) -> bool {
    tx_valid(es, len) && inverse_fits(es)
}

/// In a sorted, disjoint batch every earlier edit ends before every later
/// edit starts.
pub proof fn lemma_sorted_chain(es: Seq<EditView>, i: int, j: int, len: int)
    requires
        tx_valid(es, len),
        0 <= i < j < es.len(),
    ensures
        es[i].hi <= es[j].lo,
    decreases j - i,
{
    if i + 1 < j {
        lemma_sorted_chain(es, i + 1, j, len);
    }
}

pub proof fn lemma_total_delta_take_step(es: Seq<EditView>, i: int)
    requires
        0 <= i < es.len(),
    ensures
        total_delta(es.take(i + 1)) == total_delta(es.take(i)) + es[i].delta(),
{
    assert(es.take(i + 1).drop_last() =~= es.take(i));
    assert(es.take(i + 1).last() == es[i]);
}

/// Applying a valid batch changes the length by the total delta.
pub proof fn lemma_apply_len(text: Seq<char>, es: Seq<EditView>)
    requires
        tx_valid(es, text.len() as int),
    ensures
        apply_edits(text, es).len() == text.len() + total_delta(es),
    decreases es.len(),
{
    if es.len() > 0 {
        let e = es.last();
        let rest = es.drop_last();
        let text1 = splice(text, e);
        assert forall|i: int| 0 <= i < rest.len() implies (#[trigger] rest[i]).hi
            <= text1.len() by {
            if i < rest.len() - 1 {
                lemma_sorted_chain(es, i, es.len() - 1, text.len() as int);
            }
        }
        lemma_apply_len(text1, rest);
    }
}

/// Edits that address only the prefix `x` leave an appended suffix alone.
pub proof fn lemma_apply_suffix(x: Seq<char>, suf: Seq<char>, es: Seq<EditView>)
    requires
        tx_valid(es, x.len() as int),
    ensures
        apply_edits(x + suf, es) == apply_edits(x, es) + suf,
    decreases es.len(),
{
    if es.len() == 0 {
        assert(apply_edits(x + suf, es) =~= apply_edits(x, es) + suf);
    } else {
        let e = es.last();
        let rest = es.drop_last();
        assert(splice(x + suf, e) =~= splice(x, e) + suf) by {
            assert((x + suf).take(e.lo) =~= x.take(e.lo));
            assert((x + suf).skip(e.hi) =~= x.skip(e.hi) + suf);
        }
        let x1 = splice(x, e);
        assert forall|i: int| 0 <= i < rest.len() implies (#[trigger] rest[i]).hi <= x1.len() by {
            if i < rest.len() - 1 {
                lemma_sorted_chain(es, i, es.len() - 1, x.len() as int);
            }
        }
        lemma_apply_suffix(x1, suf, rest);
    }
}

/// Applying edits that all address the prefix `[0, p)` only rewrites that
/// prefix.
pub proof fn lemma_apply_local(text: Seq<char>, es: Seq<EditView>, p: int)
    requires
        tx_valid(es, p),
        0 <= p <= text.len(),
    ensures
        apply_edits(text, es) == apply_edits(text.take(p), es) + text.skip(p),
{
    assert(text =~= text.take(p) + text.skip(p));
    lemma_apply_suffix(text.take(p), text.skip(p), es);
}

/// Index-wise characterization of [`inverse_views`].
pub proof fn lemma_inverse_len(es: Seq<EditView>)
    ensures
        inverse_views(es).len() == es.len(),
    decreases es.len(),
{
    if es.len() > 0 {
        lemma_inverse_len(es.drop_last());
    }
}

pub proof fn lemma_inverse_index(es: Seq<EditView>, i: int)
    requires
        0 <= i < es.len(),
    ensures
        inverse_views(es).len() == es.len(),
        inverse_views(es)[i] == (EditView {
            lo: es[i].lo + total_delta(es.take(i)),
            hi: es[i].lo + total_delta(es.take(i)) + es[i].ins.len(),
            del: es[i].ins,
            ins: es[i].del,
        }),
    decreases es.len(),
{
    lemma_inverse_len(es);
    lemma_inverse_len(es.drop_last());
    if i == es.len() - 1 {
        assert(es.take(i) =~= es.drop_last());
    } else {
        lemma_inverse_index(es.drop_last(), i);
        assert(es.drop_last().take(i) =~= es.take(i));
        assert(es.drop_last()[i] == es[i]);
    }
}

/// Appending an edit past a batch's bound keeps the batch valid for a larger
/// text.
pub proof fn lemma_tx_valid_push(es: Seq<EditView>, e: EditView, bound: int, len2: int)
    requires
        tx_valid(es, bound),
        0 <= bound <= e.lo <= e.hi <= len2,
        bound <= len2,
    ensures
        tx_valid(es.push(e), len2),
{
    let p = es.push(e);
    assert(forall|i: int| 0 <= i < es.len() ==> p[i] == es[i]);
    assert(p[p.len() - 1] == e);
    assert forall|i: int| 0 <= i < p.len() implies (#[trigger] p[i]).wf() by {
        if i < es.len() {
            assert(es[i].wf());
        }
    }
    assert forall|i: int| 0 <= i < p.len() implies (#[trigger] p[i]).hi <= len2 by {
        if i < es.len() {
            assert(es[i].hi <= bound);
        }
    }
    assert forall|i: int| 0 <= i < p.len() - 1 implies (#[trigger] p[i]).hi <= p[i + 1].lo by {
        if i < es.len() - 1 {
            assert(es[i].hi <= es[i + 1].lo);
        } else {
            assert(p[i].hi <= bound);
        }
    }
}

pub proof fn lemma_olds_match_push(es: Seq<EditView>, e: EditView, text: Seq<char>)
    requires
        olds_match(es, text),
        e.del == text.subrange(e.lo, e.hi),
    ensures
        olds_match(es.push(e), text),
{
    let p = es.push(e);
    assert(forall|i: int| 0 <= i < es.len() ==> p[i] == es[i]);
    assert(p[p.len() - 1] == e);
    assert forall|i: int|
        0 <= i < p.len() implies (#[trigger] p[i]).del == text.subrange(p[i].lo, p[i].hi) by {
        if i < es.len() {
            assert(es[i].del == text.subrange(es[i].lo, es[i].hi));
        }
    }
}

/// The inversion theorem: the inverse of a valid transaction is itself a
/// valid transaction against the post-edit text, its `del`s match that text,
/// and applying it restores the original text exactly.
#[verifier::rlimit(80)]
pub proof fn lemma_apply_inverse(text: Seq<char>, es: Seq<EditView>)
    requires
        tx_valid(es, text.len() as int),
        olds_match(es, text),
    ensures
        tx_valid(inverse_views(es), apply_edits(text, es).len() as int),
        olds_match(inverse_views(es), apply_edits(text, es)),
        apply_edits(apply_edits(text, es), inverse_views(es)) == text,
        total_delta(inverse_views(es)) == -total_delta(es),
    decreases es.len(),
{
    if es.len() == 0 {
        assert(inverse_views(es) =~= Seq::<EditView>::empty());
    } else {
        let e = es.last();
        let rest = es.drop_last();
        let d = total_delta(rest);
        let text1 = splice(text, e);
        let fin = apply_edits(text1, rest);
        assert(apply_edits(text, es) == fin);

        // rest is valid against both the original and the spliced text, and
        // its olds still match both.
        assert forall|i: int| 0 <= i < rest.len() implies (#[trigger] rest[i]).hi <= e.lo by {
            if i < es.len() - 1 {
                if i == es.len() - 2 {
                } else {
                    lemma_sorted_chain(es, i, es.len() - 2, text.len() as int);
                }
            }
        }
        assert(text1.len() == text.len() + e.delta());
        assert(tx_valid(rest, text1.len() as int));
        assert(tx_valid(rest, text.len() as int));
        assert forall|i: int|
            0 <= i < rest.len() implies (#[trigger] rest[i]).del == text1.subrange(
            rest[i].lo,
            rest[i].hi,
        ) by {
            assert(text1.subrange(rest[i].lo, rest[i].hi) =~= text.subrange(
                rest[i].lo,
                rest[i].hi,
            ));
        }

        lemma_apply_inverse(text1, rest);
        lemma_apply_inverse(text, rest);

        // Decompose the final text around the replacement.
        lemma_apply_local(text1, rest, e.lo);
        assert(text1.take(e.lo) =~= text.take(e.lo));
        assert(text1.skip(e.lo) =~= e.ins + text.skip(e.hi));
        let p = apply_edits(text.take(e.lo), rest);
        lemma_apply_len(text.take(e.lo), rest);
        assert(p.len() == e.lo + d);
        assert(fin =~= p + e.ins + text.skip(e.hi));

        let inv = inverse_views(es);
        let inv_rest = inverse_views(rest);
        let inv_e = EditView { lo: e.lo + d, hi: e.lo + d + e.ins.len(), del: e.ins, ins: e.del };
        assert(inv == inv_rest.push(inv_e));
        assert(inv.last() == inv_e);
        assert(inv.drop_last() =~= inv_rest);

        // Validity of the inverse against the final text.
        lemma_apply_len(text, es);
        assert(fin.len() == text.len() + total_delta(es));
        assert(inv_e.hi <= fin.len());
        lemma_inverse_len(rest);
        if rest.len() > 0 {
            let m = rest.len() - 1;
            // the last inverse of rest ends before the pushed inverse starts
            lemma_inverse_index(rest, m);
            assert(rest.take(m) =~= rest.drop_last());
            assert(total_delta(rest) == total_delta(rest.drop_last()) + rest[m].delta());
            assert(rest[m].hi <= e.lo);
            assert(inv_rest[m].hi <= inv_e.lo);
        }
        assert(tx_valid(inv, fin.len() as int)) by {
            assert(forall|i: int|
                0 <= i < inv.len() - 1 ==> (#[trigger] inv[i]).hi <= inv[i + 1].lo) by {
                assert(forall|i: int| 0 <= i < inv_rest.len() ==> inv[i] == inv_rest[i]);
            }
            assert(forall|i: int| 0 <= i < inv.len() ==> (#[trigger] inv[i]).wf());
            assert(forall|i: int|
                0 <= i < inv.len() - 1 ==> (#[trigger] inv[i]).hi <= fin.len()) by {
                assert(tx_valid(inv_rest, fin.len() as int));
            }
        }

        // The inverse `del`s match the final text.
        assert(fin.subrange(inv_e.lo, inv_e.hi) =~= e.ins);
        assert(olds_match(inv, fin)) by {
            assert(forall|i: int| 0 <= i < inv_rest.len() ==> inv[i] == inv_rest[i]);
            assert(olds_match(inv_rest, fin));
        }

        // Applying the inverse: the pushed inverse edit is spliced first and
        // turns `fin` into `apply_edits(text, rest)`.
        assert(apply_edits(fin, inv) == apply_edits(splice(fin, inv_e), inv_rest));
        assert(splice(fin, inv_e) =~= p + e.del + text.skip(e.hi)) by {
            assert(fin.take(e.lo + d) =~= p);
            assert(fin.skip(e.lo + d + e.ins.len()) =~= text.skip(e.hi));
        }
        assert(e.del == text.subrange(e.lo, e.hi));
        assert(splice(fin, inv_e) =~= apply_edits(text, rest)) by {
            lemma_apply_local(text, rest, e.lo);
            assert(p + e.del + text.skip(e.hi) =~= p + text.skip(e.lo));
        }
        assert(apply_edits(apply_edits(text, rest), inv_rest) == text);

        // Total delta of the inverse.
        assert(total_delta(inv) == total_delta(inv_rest) + inv_e.delta());
        assert(inv_e.delta() == -e.delta());
    }
}

/// The inverse of a valid batch is valid against a text of the post-edit
/// length, olds or not.
pub proof fn lemma_inverse_valid(text_len: int, es: Seq<EditView>)
    requires
        tx_valid(es, text_len),
    ensures
        tx_valid(inverse_views(es), text_len + total_delta(es)),
    decreases es.len(),
{
    lemma_inverse_len(es);
    if es.len() > 0 {
        let e = es.last();
        let rest = es.drop_last();
        let len1 = text_len + e.delta();
        assert forall|i: int| 0 <= i < rest.len() implies (#[trigger] rest[i]).hi <= e.lo by {
            if i < es.len() - 2 {
                lemma_sorted_chain(es, i, es.len() - 2, text_len);
            }
        }
        assert(tx_valid(rest, len1));
        lemma_inverse_valid(len1, rest);
        let inv = inverse_views(es);
        let inv_rest = inverse_views(rest);
        let d = total_delta(rest);
        let inv_e = EditView { lo: e.lo + d, hi: e.lo + d + e.ins.len(), del: e.ins, ins: e.del };
        assert(inv == inv_rest.push(inv_e));
        assert(len1 + total_delta(rest) == text_len + total_delta(es));
        lemma_inverse_len(rest);
        if rest.len() > 0 {
            let m = rest.len() - 1;
            lemma_inverse_index(rest, m);
            assert(rest.take(m) =~= rest.drop_last());
            assert(total_delta(rest) == total_delta(rest.drop_last()) + rest[m].delta());
            assert(rest[m].hi <= e.lo);
            assert(inv_rest[m].hi <= inv_e.lo);
        }
        assert(tx_valid(inv, text_len + total_delta(es))) by {
            assert(forall|i: int| 0 <= i < inv_rest.len() ==> inv[i] == inv_rest[i]);
            assert(inv[inv.len() - 1] == inv_e);
            assert forall|i: int| 0 <= i < inv.len() implies (#[trigger] inv[i]).wf() by {
                if i < inv_rest.len() {
                    assert(inv_rest[i].wf());
                }
            }
            assert forall|i: int|
                0 <= i < inv.len() implies (#[trigger] inv[i]).hi <= text_len + total_delta(
                es,
            ) by {
                if i < inv_rest.len() {
                    assert(inv_rest[i].hi <= len1 + total_delta(rest));
                }
            }
            assert forall|i: int|
                0 <= i < inv.len() - 1 implies (#[trigger] inv[i]).hi <= inv[i + 1].lo by {
                if i < inv_rest.len() - 1 {
                    assert(inv_rest[i].hi <= inv_rest[i + 1].lo);
                }
            }
        }
    }
}

/// When the post-edit text fits the machine's index type, so does every
/// inverse range.
pub proof fn lemma_fits_from_len(text: Seq<char>, es: Seq<EditView>)
    requires
        tx_valid(es, text.len() as int),
        olds_match(es, text),
        apply_edits(text, es).len() <= usize::MAX,
    ensures
        inverse_fits(es),
{
    lemma_apply_inverse(text, es);
    let fin = apply_edits(text, es);
    assert forall|i: int|
        0 <= i < es.len() implies (#[trigger] es[i]).lo + total_delta(es.take(i)) + es[i].ins.len()
        <= usize::MAX by {
        lemma_inverse_index(es, i);
        assert(inverse_views(es)[i].hi <= fin.len());
    }
}

/// The one kind of action a transaction carries.
pub enum Action {
    Edit(Edit),
}

impl Action {
    pub open spec fn edit_view(self) -> EditView {
        match self {
            Action::Edit(e) => e.ev(),
        }
    }
}

/// A sub-unit of a transaction; the unit from which resulting selections are
/// derived.
pub struct ActionGroup {
    pub actions: Vec<Action>,
}

impl ActionGroup {
    pub fn new(actions: Vec<Action>) -> (res: ActionGroup)
        ensures
            res.actions@ == actions@,
    {
        ActionGroup { actions }
    }

    pub open spec fn views(self) -> Seq<EditView> {
        action_views(self.actions@)
    }
}

pub open spec fn action_views(s: Seq<Action>) -> Seq<EditView> {
    s.map_values(|a: Action| a.edit_view())
}

pub open spec fn groups_views(gs: Seq<ActionGroup>) -> Seq<EditView>
    decreases gs.len(),
{
    if gs.len() == 0 {
        Seq::<EditView>::empty()
    } else {
        groups_views(gs.drop_last()) + gs.last().views()
    }
}

/// An atomic, invertible group of edits, applied and undone as one unit. All
/// of its ranges address the pre-transaction text.
pub struct EditTransaction {
    pub action_groups: Vec<ActionGroup>,
}

impl EditTransaction {
    /// The flattened edits of the transaction, in declared order.
    pub open spec fn evs(self) -> Seq<EditView> {
        groups_views(self.action_groups@)
    }

    pub fn from_action_groups(action_groups: Vec<ActionGroup>) -> (res: EditTransaction)
        ensures
            res.action_groups@ == action_groups@,
    {
        EditTransaction { action_groups }
    }

    /// A transaction holding one edit per group.
    pub fn from_edits(edits: Vec<Edit>) -> (res: EditTransaction)
        ensures
            res.evs() == views_of(edits@),
            res.action_groups@.len() == edits@.len(),
    {
        let mut groups: Vec<ActionGroup> = Vec::new();
        let mut i: usize = 0;
        let n = edits.len();
        proof {
            assert(groups_views(groups@) =~= views_of(edits@).take(0));
        }
        while i < n
            invariant
                i <= n == edits@.len(),
                groups@.len() == i,
                groups_views(groups@) =~= views_of(edits@).take(i as int),
            decreases n - i,
        {
            let ghost pre_groups = groups@;
            let e = edits[i].duplicate();
            let mut actions: Vec<Action> = Vec::new();
            actions.push(Action::Edit(e));
            let g = ActionGroup { actions };
            proof {
                assert(g.views() =~= seq![edits@[i as int].ev()]);
            }
            groups.push(g);
            proof {
                assert(groups@.drop_last() =~= pre_groups);
                assert(groups_views(groups@) =~= views_of(edits@).take(i + 1));
            }
            i = i + 1;
        }
        proof {
            assert(views_of(edits@).take(n as int) =~= views_of(edits@));
        }
        EditTransaction { action_groups: groups }
    }

    /// The flattened edits, cloned, in declared order.
    pub fn edits(&self) -> (res: Vec<Edit>)
        ensures
            views_of(res@) == self.evs(),
    {
        let mut res: Vec<Edit> = Vec::new();
        let mut g: usize = 0;
        let n = self.action_groups.len();
        proof {
            assert(views_of(res@) =~= groups_views(self.action_groups@.take(0)));
        }
        while g < n
            invariant
                g <= n == self.action_groups@.len(),
                views_of(res@) =~= groups_views(self.action_groups@.take(g as int)),
            decreases n - g,
        {
            let group = &self.action_groups[g];
            let m = group.actions.len();
            let mut a: usize = 0;
            proof {
                assert(action_views(group.actions@.take(0)) =~= Seq::<EditView>::empty());
            }
            while a < m
                invariant
                    a <= m == group.actions@.len(),
                    group == &self.action_groups@[g as int],
                    g < n == self.action_groups@.len(),
                    views_of(res@) =~= groups_views(self.action_groups@.take(g as int))
                        + action_views(group.actions@.take(a as int)),
                decreases m - a,
            {
                let ghost pre_res = res@;
                match &group.actions[a] {
                    Action::Edit(e) => {
                        res.push(e.duplicate());
                    },
                }
                proof {
                    assert(views_of(res@) =~= views_of(pre_res).push(
                        group.actions@[a as int].edit_view(),
                    ));
                    assert(action_views(group.actions@.take(a + 1)) =~= action_views(
                        group.actions@.take(a as int),
                    ).push(group.actions@[a as int].edit_view()));
                    assert(views_of(res@) =~= groups_views(self.action_groups@.take(g as int))
                        + action_views(group.actions@.take(a + 1)));
                }
                a = a + 1;
            }
            proof {
                assert(group.actions@.take(m as int) =~= group.actions@);
                assert(self.action_groups@.take(g + 1).drop_last() =~= self.action_groups@.take(
                    g as int,
                ));
                assert(self.action_groups@.take(g + 1).last() == self.action_groups@[g as int]);
            }
            g = g + 1;
        }
        proof {
            assert(self.action_groups@.take(n as int) =~= self.action_groups@);
        }
        res
    }
}

/// Validate a flattened edit batch against a text of `text_len` characters
/// and materialize its inverse. Returns `None` exactly when the batch is not
/// applicable: a malformed or out-of-bounds range, overlapping or unsorted
/// ranges, or an inverse position past `usize::MAX`.
#[verifier::rlimit(80)]
pub fn compute_inverse(edits: &Vec<Edit>, text_len: usize) -> (res: Option<Vec<Edit>>)
    ensures
        match res {
            Some(inv) => {
                &&& tx_applicable(views_of(edits@), text_len as int)
                &&& views_of(inv@) == inverse_views(views_of(edits@))
            },
            None => !tx_applicable(views_of(edits@), text_len as int),
        },
{
    let ghost evs = views_of(edits@);
    let mut inv: Vec<Edit> = Vec::new();
    let mut i: usize = 0;
    let n = edits.len();
    let mut removed: usize = 0;
    let mut inserted: usize = 0;
    let mut prev_hi: usize = 0;
    proof {
        assert(inverse_views(evs.take(0)) =~= Seq::<EditView>::empty());
        assert(views_of(inv@) =~= Seq::<EditView>::empty());
        assert(evs.take(0) =~= Seq::<EditView>::empty());
    }
    while i < n
        invariant
            i <= n == edits@.len(),
            evs == views_of(edits@),
            evs.len() == n,
            forall|k: int| 0 <= k < n ==> evs[k] == edits@[k].ev(),
            tx_valid(evs.take(i as int), text_len as int),
            inverse_fits(evs.take(i as int)),
            total_delta(evs.take(i as int)) == inserted - removed,
            removed <= prev_hi <= text_len,
            i > 0 ==> prev_hi == evs[i - 1].hi,
            i == 0 ==> prev_hi == 0 && removed == 0 && inserted == 0,
            views_of(inv@) =~= inverse_views(evs.take(i as int)),
        decreases n - i,
    {
        let e = &edits[i];
        let lo = e.range.start.0;
        let hi = e.range.end.0;
        if lo > hi || hi > text_len || lo < prev_hi {
            proof {
                lemma_tx_invalid_witness(evs, text_len as int, i as int);
            }
            return None;
        }
        let ins_len = e.new.as_str().unicode_len();
        proof {
            lemma_total_delta_take_step(evs, i as int);
            assert(evs.take(i + 1).drop_last() =~= evs.take(i as int));
        }
        let base = lo - removed;
        let inv_lo_opt = base.checked_add(inserted);
        let inv_lo = match inv_lo_opt {
            Some(v) => v,
            None => {
                proof {
                    assert(evs[i as int].lo + total_delta(evs.take(i as int))
                        + evs[i as int].ins.len() > usize::MAX);
                    assert(!inverse_fits(evs.take(i + 1)));
                    lemma_fits_prefix(evs, i + 1);
                }
                return None;
            },
        };
        let inv_hi_opt = inv_lo.checked_add(ins_len);
        let inv_hi = match inv_hi_opt {
            Some(v) => v,
            None => {
                proof {
                    assert(!inverse_fits(evs.take(i + 1)));
                    lemma_fits_prefix(evs, i + 1);
                }
                return None;
            },
        };
        let inv_edit = Edit {
            range: CharIndexRange { start: CharIndex(inv_lo), end: CharIndex(inv_hi) },
            old: e.new.clone(),
            new: e.old.clone(),
        };
        let ghost pre_inv = inv@;
        inv.push(inv_edit);
        proof {
            lemma_inverse_len(evs.take(i as int));
            assert(views_of(inv@).drop_last() =~= views_of(pre_inv));
            assert(views_of(inv@) =~= inverse_views(evs.take(i + 1)));
            let pre = evs.take(i as int);
            let nxt = evs.take(i + 1);
            assert(forall|k: int| 0 <= k < pre.len() ==> #[trigger] pre[k] == evs[k]);
            assert(forall|k: int| 0 <= k < nxt.len() ==> #[trigger] nxt[k] == evs[k]);
            assert(tx_valid(nxt, text_len as int)) by {
                assert forall|k: int|
                    0 <= k < nxt.len() - 1 implies (#[trigger] nxt[k]).hi <= nxt[k + 1].lo by {
                    if k + 1 < i {
                        assert(pre[k].hi <= pre[k + 1].lo);
                    }
                }
            }
            assert(inverse_fits(nxt)) by {
                assert forall|k: int|
                    0 <= k < nxt.len() implies (#[trigger] nxt[k]).lo + total_delta(nxt.take(k))
                    + nxt[k].ins.len() <= usize::MAX by {
                    assert(nxt.take(k) =~= evs.take(k));
                    if k < i {
                        assert(pre.take(k) =~= evs.take(k));
                        assert(pre[k].lo + total_delta(pre.take(k)) + pre[k].ins.len()
                            <= usize::MAX);
                    }
                }
            }
        }
        removed = removed + (hi - lo);
        inserted = inserted + ins_len;
        prev_hi = hi;
        i = i + 1;
    }
    proof {
        assert(evs.take(n as int) =~= evs);
    }
    Some(inv)
}

/// If an edit of the batch is malformed, out of bounds, or starts before the
/// previous edit ends, the batch is not valid.
proof fn lemma_tx_invalid_witness(evs: Seq<EditView>, len: int, i: int)
    requires
        0 <= i < evs.len(),
        !evs[i].wf() || evs[i].hi > len || (i > 0 && evs[i].lo < evs[i - 1].hi),
    ensures
        !tx_valid(evs, len),
{
}

/// A batch whose prefix already fails the machine-limit check fails it too.
proof fn lemma_fits_prefix(evs: Seq<EditView>, j: int)
    requires
        0 <= j <= evs.len(),
        !inverse_fits(evs.take(j)),
    ensures
        !inverse_fits(evs),
{
    let pre = evs.take(j);
    let k = choose|k: int|
        0 <= k < pre.len() && !((#[trigger] pre[k]).lo + total_delta(pre.take(k)) + pre[k].ins.len()
            <= usize::MAX);
    assert(pre.take(k) =~= evs.take(k));
    assert(evs[k].lo + total_delta(evs.take(k)) + evs[k].ins.len() > usize::MAX);
}

} // verus!
