//! The engine's laws, stated once and proved for every input: transactions
//! are exactly invertible, satellite ranges are remapped consistently, and
//! the line count ignores a single trailing newline.

use vstd::prelude::*;

verus! {

use crate::buffer::visible_line_count;
use crate::char_index_range::remap_spec;
use crate::edit::{
    apply_edits, inverse_views, lemma_apply_inverse, lemma_inverse_index, lemma_inverse_len,
    olds_match, total_delta, tx_valid, EditView,
};
use crate::text_model::{lemma_newline_count_append, lemma_newline_count_singleton, newline_count};

/// Applying a transaction and then its inverse reproduces the prior text
/// exactly, and the inverse is itself a valid transaction whose `old`s match
/// the edited text — so undo is apply, with nothing recomputed.
pub proof fn law_transaction_inverse_round_trip(text: Seq<char>, es: Seq<EditView>)
    requires
        tx_valid(es, text.len() as int),
        olds_match(es, text),
    ensures
        tx_valid(inverse_views(es), apply_edits(text, es).len() as int),
        olds_match(inverse_views(es), apply_edits(text, es)),
        apply_edits(apply_edits(text, es), inverse_views(es)) == text,
{
    lemma_apply_inverse(text, es);
}

/// The inverse of the inverse is the transaction itself (when each edit's
/// `old` has the length of the range it replaces, as `olds_match` gives): so
/// redo after undo reproduces the edited text, exactly as undo after redo
/// reproduces the prior one.
pub proof fn law_double_inverse(text: Seq<char>, es: Seq<EditView>)
    requires
        tx_valid(es, text.len() as int),
        olds_match(es, text),
    ensures
        inverse_views(inverse_views(es)) == es,
{
    let inv = inverse_views(es);
    lemma_inverse_len(es);
    lemma_inverse_len(inv);
    assert forall|k: int| 0 <= k < es.len() implies (#[trigger] es[k]).del.len() == es[k].hi
        - es[k].lo by {
        assert(es[k].del == text.subrange(es[k].lo, es[k].hi));
    }
    assert forall|i: int| 0 <= i < es.len() implies #[trigger] inverse_views(inv)[i] == es[i] by {
        lemma_inverse_index(es, i);
        lemma_inverse_index(inv, i);
        lemma_delta_prefixes(es, i);
        assert(es[i].del == text.subrange(es[i].lo, es[i].hi));
    }
    assert(inverse_views(inv) =~= es);
}

/// Prefix deltas of a transaction and of its inverse cancel (each edit's
/// `old` spanning exactly the range it replaces).
proof fn lemma_delta_prefixes(es: Seq<EditView>, i: int)
    requires
        0 <= i <= es.len(),
        forall|k: int| 0 <= k < es.len() ==> (#[trigger] es[k]).del.len() == es[k].hi - es[k].lo,
    ensures
        total_delta(inverse_views(es).take(i)) == -total_delta(es.take(i)),
    decreases i,
{
    lemma_inverse_len(es);
    if i > 0 {
        lemma_delta_prefixes(es, i - 1);
        crate::edit::lemma_total_delta_take_step(es, i - 1);
        assert(inverse_views(es).take(i).drop_last() =~= inverse_views(es).take(i - 1));
        assert(inverse_views(es).take(i).last() == inverse_views(es)[i - 1]);
        lemma_inverse_index(es, i - 1);
    } else {
        assert(es.take(0) =~= Seq::<EditView>::empty());
        assert(inverse_views(es).take(0) =~= Seq::<EditView>::empty());
    }
}

/// How one edit (replacing `[es_, ee_)` with `nl` characters) treats an
/// annotated range `[rs, re)`: a range wholly inside the replaced region is
/// dropped; one entirely before the edit is untouched; one entirely at or
/// after it is shifted by the edit's length delta; one that straddles a
/// boundary is resized consistently with that delta.
pub proof fn law_range_remap_cases(rs: int, re: int, es_: int, ee_: int, nl: int)
    requires
        0 <= rs <= re,
        0 <= es_ <= ee_,
    ensures
        es_ <= rs && re <= ee_ && es_ < re && rs < ee_ ==> remap_spec(rs, re, es_, ee_, nl)
            is None,
        re <= es_ ==> remap_spec(rs, re, es_, ee_, nl) == Some((rs, re)),
        rs >= ee_ && re > es_ ==> remap_spec(rs, re, es_, ee_, nl) == Some(
            (rs + nl - (ee_ - es_), re + nl - (ee_ - es_)),
        ),
        rs < es_ && es_ < re <= ee_ ==> remap_spec(rs, re, es_, ee_, nl) == Some((rs, es_)),
        es_ <= rs && rs < ee_ < re ==> remap_spec(rs, re, es_, ee_, nl) == Some(
            (es_ + nl, re + nl - (ee_ - es_)),
        ),
        rs < es_ && ee_ < re ==> remap_spec(rs, re, es_, ee_, nl) == Some(
            (rs, re + nl - (ee_ - es_)),
        ),
{
}

/// A satellite range lying entirely outside an edit's replaced region is
/// restored exactly when the edit's inverse is applied: remapping by the
/// edit and then by its inverse is the identity on such ranges (a nonempty
/// range when it lies after the edit — an empty cursor at the replaced
/// region's end is absorbed into it). A range the edit consumed is dropped
/// and cannot return; a range straddling a boundary is clipped and keeps its
/// clipped extent.
pub proof fn law_outside_range_remap_round_trip(rs: int, re: int, es_: int, ee_: int, nl: int)
    requires
        0 <= rs <= re,
        0 <= es_ <= ee_,
        nl >= 0,
        re <= es_ || (rs >= ee_ && rs < re),
    ensures
        remap_spec(rs, re, es_, ee_, nl) is Some,
        ({
            let p = remap_spec(rs, re, es_, ee_, nl)->0;
            remap_spec(p.0, p.1, es_, es_ + nl, ee_ - es_) == Some((rs, re))
        }),
{
}

/// A text ending in a single trailing newline has as many lines as the same
/// text without it: the final newline terminates the last line instead of
/// opening a new one.
pub proof fn law_trailing_newline_line_count(s: Seq<char>)
    requires
        s.len() > 0,
        s[s.len() - 1] == '\n',
        s.len() == 1 || s[s.len() - 2] != '\n',
    ensures
        visible_line_count(s) == visible_line_count(s.drop_last()),
{
    let t = s.drop_last();
    assert(s =~= t + seq!['\n']);
    lemma_newline_count_append(t, seq!['\n']);
    lemma_newline_count_singleton('\n');
    if t.len() > 0 {
        assert(t[t.len() - 1] == s[s.len() - 2]);
    }
}

} // verus!
