//! The content reconciler: derive an edit transaction from two full text
//! versions by a line-level diff. The diff itself is an outside capability;
//! its defining property — the delete/equal side replays the old text and the
//! insert/equal side the new text — is enough to prove here that applying the
//! derived transaction to the old text produces the new text exactly.

use vstd::prelude::*;

verus! {

use crate::char_index_range::CharIndexRange;
use crate::edit::{
    apply_edits, lemma_apply_suffix, lemma_olds_match_push, lemma_tx_valid_push, olds_match,
    splice, tx_valid, views_of, Edit, EditView,
};
use crate::position::CharIndex;
use vstd::string::StrSliceExecFns;
use vstd::string::StringExecFns;

/// Which side of the diff a change belongs to.
#[derive(Clone, Copy, PartialEq, Eq, Structural, Debug)]
pub enum DiffTag {
    Delete,
    Equal,
    Insert,
}

/// One tokenized line of the diff, tagged with its side.
pub struct DiffChange {
    pub tag: DiffTag,
    pub text: String,
}

/// The mathematical content of a [`DiffChange`].
pub ghost struct ChangeView {
    pub tag: DiffTag,
    pub text: Seq<char>,
}

pub open spec fn change_views(cs: Seq<DiffChange>) -> Seq<ChangeView> {
    cs.map_values(|c: DiffChange| ChangeView { tag: c.tag, text: c.text@ })
}

/// The line diff of two texts: the tokenized changes the diff engine
/// produces, a function of the two texts alone.
pub uninterp spec fn diff_of(old: Seq<char>, new: Seq<char>) -> Seq<ChangeView>;

/// The old text: what the delete and equal changes spell, in order.
pub open spec fn old_side(cs: Seq<DiffChange>) -> Seq<char>
    decreases cs.len(),
{
    if cs.len() == 0 {
        Seq::<char>::empty()
    } else {
        old_side(cs.drop_last()) + (if cs.last().tag is Insert {
            Seq::<char>::empty()
        } else {
            cs.last().text@
        })
    }
}

/// The new text: what the insert and equal changes spell, in order.
pub open spec fn new_side(cs: Seq<DiffChange>) -> Seq<char>
    decreases cs.len(),
{
    if cs.len() == 0 {
        Seq::<char>::empty()
    } else {
        new_side(cs.drop_last()) + (if cs.last().tag is Delete {
            Seq::<char>::empty()
        } else {
            cs.last().text@
        })
    }
}

/// Relies on `similar::TextDiff::from_lines` and `iter_all_changes`: the
/// changes are a function of the two texts alone; in order, they partition
/// both texts into tokenized lines, the delete/equal changes replaying the
/// old text and the insert/equal changes the new text.
#[verifier::external_body]
pub(crate) fn diff_changes(old_text: &str, new_text: &str) -> (res: Vec<DiffChange>)
    ensures
        change_views(res@) == diff_of(old_text@, new_text@),
        old_side(res@) == old_text@,
        new_side(res@) == new_text@,
{
    let diff = similar::TextDiff::from_lines(old_text, new_text);
    diff.iter_all_changes().map(
        |c| DiffChange {
            tag: match c.tag() {
                similar::ChangeTag::Delete => DiffTag::Delete,
                similar::ChangeTag::Equal => DiffTag::Equal,
                similar::ChangeTag::Insert => DiffTag::Insert,
            },
            text: c.value().to_string(),
        },
    ).collect()
}

/// `old_side`/`new_side` distribute over concatenation.
proof fn lemma_sides_append(a: Seq<DiffChange>, b: Seq<DiffChange>)
    ensures
        old_side(a + b) == old_side(a) + old_side(b),
        new_side(a + b) == new_side(a) + new_side(b),
    decreases b.len(),
{
    if b.len() == 0 {
        assert(a + b =~= a);
        assert(old_side(a) + old_side(b) =~= old_side(a));
        assert(new_side(a) + new_side(b) =~= new_side(a));
    } else {
        lemma_sides_append(a, b.drop_last());
        assert((a + b).drop_last() =~= a + b.drop_last());
        assert((a + b).last() == b.last());
        assert(old_side(a) + old_side(b.drop_last()) + (if b.last().tag is Insert {
            Seq::<char>::empty()
        } else {
            b.last().text@
        }) =~= old_side(a) + old_side(b));
        assert(new_side(a) + new_side(b.drop_last()) + (if b.last().tag is Delete {
            Seq::<char>::empty()
        } else {
            b.last().text@
        }) =~= new_side(a) + new_side(b));
    }
}

/// The next old-side change extends the old prefix by its own text.
proof fn lemma_old_prefix_step(cs: Seq<DiffChange>, i: int)
    requires
        0 <= i < cs.len(),
    ensures
        old_side(cs.take(i + 1)) == old_side(cs.take(i)) + (if cs[i].tag is Insert {
            Seq::<char>::empty()
        } else {
            cs[i].text@
        }),
        new_side(cs.take(i + 1)) == new_side(cs.take(i)) + (if cs[i].tag is Delete {
            Seq::<char>::empty()
        } else {
            cs[i].text@
        }),
{
    assert(cs.take(i + 1).drop_last() =~= cs.take(i));
    assert(cs.take(i + 1).last() == cs[i]);
}

/// A prefix of the changes spells a prefix of the old text.
proof fn lemma_old_prefix_of(cs: Seq<DiffChange>, i: int)
    requires
        0 <= i <= cs.len(),
    ensures
        old_side(cs.take(i)).len() <= old_side(cs).len(),
        old_side(cs.take(i)) == old_side(cs).take(old_side(cs.take(i)).len() as int),
{
    assert(cs =~= cs.take(i) + cs.skip(i));
    lemma_sides_append(cs.take(i), cs.skip(i));
    assert(old_side(cs).take(old_side(cs.take(i)).len() as int) =~= old_side(cs.take(i)));
}

/// The coalescing state after some prefix of the changes: the finished
/// edits, the position reached in the old text, and the pending delete/insert
/// run (its start in the old text, its deleted text, its inserted text).
pub ghost struct CoalesceState {
    pub edits: Seq<EditView>,
    pub pos: int,
    pub run: Option<(int, Seq<char>, Seq<char>)>,
}

/// One change extends the coalescing state: a delete or insert opens or
/// extends the pending run, an equal change flushes it as one edit.
pub open spec fn coalesce_step(st: CoalesceState, c: ChangeView) -> CoalesceState {
    match c.tag {
        DiffTag::Delete => CoalesceState {
            edits: st.edits,
            pos: st.pos + c.text.len(),
            run: match st.run {
                Some((s, del, ins)) => Some((s, del + c.text, ins)),
                None => Some((st.pos, c.text, Seq::<char>::empty())),
            },
        },
        DiffTag::Insert => CoalesceState {
            edits: st.edits,
            pos: st.pos,
            run: match st.run {
                Some((s, del, ins)) => Some((s, del, ins + c.text)),
                None => Some((st.pos, Seq::<char>::empty(), c.text)),
            },
        },
        DiffTag::Equal => CoalesceState {
            edits: match st.run {
                Some((s, del, ins)) => st.edits.push(EditView { lo: s, hi: st.pos, del, ins }),
                None => st.edits,
            },
            pos: st.pos + c.text.len(),
            run: None,
        },
    }
}

pub open spec fn coalesce_upto(cs: Seq<ChangeView>, k: int) -> CoalesceState
    decreases k,
{
    if k <= 0 {
        CoalesceState { edits: Seq::<EditView>::empty(), pos: 0, run: None }
    } else {
        coalesce_step(coalesce_upto(cs, k - 1), cs[k - 1])
    }
}

/// The edits a diff coalesces into: one per run of consecutive delete/insert
/// changes, a final pending run flushed at the end.
pub open spec fn coalesced_edits(cs: Seq<ChangeView>) -> Seq<EditView> {
    let st = coalesce_upto(cs, cs.len() as int);
    match st.run {
        Some((s, del, ins)) => st.edits.push(EditView { lo: s, hi: st.pos, del, ins }),
        None => st.edits,
    }
}

/// Coalesce the diff's changes into one edit per run of consecutive
/// delete/insert changes. `old_len` is the length of the old text, which the
/// changes spell on their delete/equal side. The resulting transaction is
/// valid for the old text, its `old`s are exactly the text its ranges
/// address, and applying it yields the new text: reconciliation round-trips
/// exactly.
#[verifier::rlimit(100)]
pub fn diff_to_edits(changes: &Vec<DiffChange>, old_len: usize) -> (res: Vec<Edit>)
    requires
        old_side(changes@).len() == old_len,
    ensures
        views_of(res@) == coalesced_edits(change_views(changes@)),
        tx_valid(views_of(res@), old_side(changes@).len() as int),
        olds_match(views_of(res@), old_side(changes@)),
        apply_edits(old_side(changes@), views_of(res@)) == new_side(changes@),
{
    let ghost all = changes@;
    let ghost cv = change_views(all);
    let ghost a_text = old_side(all);
    let mut edits: Vec<Edit> = Vec::new();
    let mut i: usize = 0;
    let n = changes.len();
    let mut old_pos: usize = 0;
    // the pending run: its start in the old text, its deleted and inserted
    // text; `run_start` is `None` between runs
    let mut run_start: Option<usize> = None;
    let mut run_old: String = String::new();
    let mut run_new: String = String::new();
    proof {
        assert(all.take(0) =~= Seq::<DiffChange>::empty());
        assert(views_of(edits@) =~= Seq::<EditView>::empty());
        assert(a_text.take(0) =~= Seq::<char>::empty());
        assert(run_old@ =~= a_text.subrange(0, 0));
        assert(apply_edits(a_text.take(0), views_of(edits@)) + run_new@ =~= new_side(all.take(0)));
        assert(coalesce_upto(cv, 0).edits =~= views_of(edits@));
        assert(forall|k: int| 0 <= k < all.len() ==> (#[trigger] cv[k]) == (ChangeView {
            tag: all[k].tag,
            text: all[k].text@,
        }));
    }
    while i < n
        invariant
            i <= n == all.len(),
            changes@ == all,
            a_text == old_side(all),
            a_text.len() == old_len,
            old_pos == old_side(all.take(i as int)).len(),
            old_pos <= old_len,
            a_text.take(old_pos as int) == old_side(all.take(i as int)),
            cv == change_views(all),
            cv.len() == n,
            forall|k: int| 0 <= k < n ==> (#[trigger] cv[k]) == (ChangeView {
                tag: all[k].tag,
                text: all[k].text@,
            }),
            coalesce_upto(cv, i as int).edits == views_of(edits@),
            coalesce_upto(cv, i as int).pos == old_pos as int,
            match run_start {
                Some(s) => coalesce_upto(cv, i as int).run == Some((s as int, run_old@, run_new@)),
                None => coalesce_upto(cv, i as int).run is None,
            },
            ({
                let base = match run_start {
                    Some(s) => s as int,
                    None => old_pos as int,
                };
                &&& 0 <= base <= old_pos
                &&& tx_valid(views_of(edits@), base)
                &&& olds_match(views_of(edits@), a_text)
                &&& run_old@ == a_text.subrange(base, old_pos as int)
                &&& (run_start is None ==> run_old@.len() == 0 && run_new@.len() == 0)
                &&& apply_edits(a_text.take(base), views_of(edits@)) + run_new@ == new_side(
                    all.take(i as int),
                )
            }),
        decreases n - i,
    {
        let ghost base: int = match run_start {
            Some(s) => s as int,
            None => old_pos as int,
        };
        let c = &changes[i];
        let clen = c.text.as_str().unicode_len();
        proof {
            assert(coalesce_upto(cv, i + 1) == coalesce_step(coalesce_upto(cv, i as int), cv[i as int]));
            lemma_old_prefix_step(all, i as int);
            lemma_old_prefix_of(all, i + 1);
            if !(c.tag is Insert) {
                assert(old_side(all.take(i + 1)).len() == old_pos + clen);
                assert(old_side(all.take(i + 1)) == a_text.take(old_pos + clen));
                assert(a_text.take(old_pos + clen) =~= a_text.take(old_pos as int) + c.text@);
            }
        }
        match c.tag {
            DiffTag::Delete => {
                if run_start.is_none() {
                    run_start = Some(old_pos);
                }
                run_old.append(c.text.as_str());
                proof {
                    assert(a_text.take(old_pos + clen) == old_side(all.take(i + 1)));
                    assert forall|k: int| 0 <= k < clen implies a_text[old_pos + k]
                        == c.text@[k] by {
                        assert(a_text.take(old_pos + clen)[old_pos + k] == a_text[old_pos + k]);
                        assert((old_side(all.take(i as int)) + c.text@)[old_pos + k]
                            == c.text@[k]);
                    }
                    assert(run_old@ =~= a_text.subrange(base, old_pos + clen)) by {
                        assert(a_text.subrange(base, old_pos + clen) =~= a_text.subrange(
                            base,
                            old_pos as int,
                        ) + c.text@);
                    }
                    assert(new_side(all.take(i + 1)) =~= new_side(all.take(i as int)));
                }
                old_pos = old_pos + clen;
            },
            DiffTag::Insert => {
                if run_start.is_none() {
                    run_start = Some(old_pos);
                }
                run_new.append(c.text.as_str());
                proof {
                    assert(apply_edits(a_text.take(base), views_of(edits@)) + run_new@
                        =~= new_side(all.take(i + 1))) by {
                        assert(new_side(all.take(i + 1)) =~= new_side(all.take(i as int))
                            + c.text@);
                    }
                }
            },
            DiffTag::Equal => {
                if let Some(s) = run_start {
                    let edit = Edit {
                        range: CharIndexRange { start: CharIndex(s), end: CharIndex(old_pos) },
                        old: run_old,
                        new: run_new,
                    };
                    let ghost pre_edits = views_of(edits@);
                    let ghost ev = edit.ev();
                    edits.push(edit);
                    run_start = None;
                    run_old = String::new();
                    run_new = String::new();
                    proof {
                        assert(views_of(edits@) =~= pre_edits.push(ev));
                        lemma_tx_valid_push(pre_edits, ev, s as int, old_pos as int);
                        lemma_olds_match_push(pre_edits, ev, a_text);
                        // the flushed edit splices the pending run into place
                        assert(apply_edits(a_text.take(old_pos as int), views_of(edits@))
                            == apply_edits(
                            splice(a_text.take(old_pos as int), ev),
                            pre_edits,
                        )) by {
                            assert(views_of(edits@).last() == ev);
                            assert(views_of(edits@).drop_last() =~= pre_edits);
                        }
                        assert(splice(a_text.take(old_pos as int), ev) =~= a_text.take(s as int)
                            + ev.ins) by {
                            assert(a_text.take(old_pos as int).take(s as int) =~= a_text.take(
                                s as int,
                            ));
                        }
                        lemma_apply_suffix(a_text.take(s as int), ev.ins, pre_edits);
                        assert(apply_edits(a_text.take(old_pos as int), views_of(edits@))
                            == new_side(all.take(i as int)));
                    }
                }
                proof {
                    let pos2 = old_pos + clen;
                    assert(tx_valid(views_of(edits@), old_pos as int));
                    assert(apply_edits(a_text.take(pos2), views_of(edits@)) =~= new_side(
                        all.take(i + 1),
                    )) by {
                        assert(a_text.take(pos2) =~= a_text.take(old_pos as int) + c.text@);
                        lemma_apply_suffix(a_text.take(old_pos as int), c.text@, views_of(edits@));
                        assert(new_side(all.take(i + 1)) =~= new_side(all.take(i as int))
                            + c.text@);
                        assert(apply_edits(a_text.take(old_pos as int), views_of(edits@))
                            =~= new_side(all.take(i as int)));
                    }
                }
                old_pos = old_pos + clen;
                proof {
                    assert(run_new@ =~= Seq::<char>::empty());
                    assert(run_old@ =~= a_text.subrange(old_pos as int, old_pos as int));
                    assert(apply_edits(a_text.take(old_pos as int), views_of(edits@)) + run_new@
                        =~= apply_edits(a_text.take(old_pos as int), views_of(edits@)));
                }
            },
        }
        i = i + 1;
    }
    proof {
        assert(all.take(n as int) =~= all);
        assert(old_pos == a_text.len());
        assert(a_text.take(old_pos as int) =~= a_text);
    }
    // flush the final run, if any
    if let Some(s) = run_start {
        let edit = Edit {
            range: CharIndexRange { start: CharIndex(s), end: CharIndex(old_pos) },
            old: run_old,
            new: run_new,
        };
        let ghost pre_edits = views_of(edits@);
        let ghost ev = edit.ev();
        edits.push(edit);
        proof {
            assert(views_of(edits@) =~= pre_edits.push(ev));
            lemma_tx_valid_push(pre_edits, ev, s as int, old_pos as int);
            lemma_olds_match_push(pre_edits, ev, a_text);
            assert(apply_edits(a_text, views_of(edits@)) == apply_edits(
                splice(a_text, ev),
                pre_edits,
            )) by {
                assert(views_of(edits@).last() == ev);
                assert(views_of(edits@).drop_last() =~= pre_edits);
            }
            assert(splice(a_text, ev) =~= a_text.take(s as int) + ev.ins);
            lemma_apply_suffix(a_text.take(s as int), ev.ins, pre_edits);
        }
    } else {
        proof {
            assert(apply_edits(a_text, views_of(edits@)) + run_new@ =~= apply_edits(
                a_text,
                views_of(edits@),
            ));
        }
    }
    edits
}

} // verus!
