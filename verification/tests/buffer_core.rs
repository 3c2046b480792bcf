use editor_core::buffer::{Buffer, BufferOwner, DiagnosticRecord, QuickfixItem};
use editor_core::char_index_range::CharIndexRange;
use editor_core::edit::{Edit, EditTransaction};
use editor_core::position::{CharIndex, Position};
use editor_core::selection::SelectionSet;
use editor_core::syntax_highlight::{HighlightedSpan, HighlightedSpans};

fn edit(start: usize, end: usize, old: &str, new: &str) -> Edit {
    Edit::new(
        CharIndexRange::new(start, end),
        old.to_string(),
        new.to_string(),
    )
}

#[test]
fn content_and_lengths() {
    let buffer = Buffer::new(None, "hello\nworld");
    assert_eq!(buffer.content(), "hello\nworld");
    assert_eq!(buffer.len_chars(), 11);
    assert_eq!(buffer.len_lines(), 2);
    assert!(!buffer.dirty());
    assert_eq!(buffer.owner(), BufferOwner::System);
}

/// `len_lines` on text ending in a single trailing newline equals
/// `len_lines` on the same text without it.
#[test]
fn len_lines_ignores_single_trailing_newline() {
    let with = Buffer::new(None, "a\nb\n");
    let without = Buffer::new(None, "a\nb");
    assert_eq!(with.len_lines(), without.len_lines());
    assert_eq!(with.len_lines(), 2);
    let empty = Buffer::new(None, "");
    assert_eq!(empty.len_lines(), 1);
    let lone = Buffer::new(None, "\n");
    assert_eq!(lone.len_lines(), 1);
}

#[test]
fn coordinate_conversions() {
    let buffer = Buffer::new(None, "ab\ncdé\nf");
    assert_eq!(buffer.char_to_line(CharIndex(0)).unwrap(), 0);
    assert_eq!(buffer.char_to_line(CharIndex(3)).unwrap(), 1);
    assert_eq!(buffer.line_to_char(1).unwrap().0, 3);
    assert_eq!(buffer.line_to_char(2).unwrap().0, 7);
    // é is two bytes in UTF-8
    assert_eq!(buffer.char_to_byte(CharIndex(6)).unwrap(), 7);
    assert_eq!(buffer.byte_to_char(7).unwrap().0, 6);
    let p = buffer.char_to_position(CharIndex(5)).unwrap();
    assert_eq!(p, Position { line: 1, column: 2 });
    assert_eq!(
        buffer
            .position_to_char(Position { line: 1, column: 2 })
            .unwrap()
            .0,
        5
    );
    // clamping: an out-of-range column clamps to the line length
    assert_eq!(
        buffer
            .position_to_char(Position { line: 0, column: 99 })
            .unwrap()
            .0,
        3
    );
    // an out-of-range char index is rejected
    assert!(buffer.char_to_line(CharIndex(99)).is_err());
    assert_eq!(buffer.char(CharIndex(3)).unwrap(), 'c');
    assert_eq!(
        buffer.get_char_at_position(Position { line: 1, column: 0 }),
        Some('c')
    );
    assert_eq!(buffer.get_line_by_line_index(0).unwrap(), "ab\n");
    assert_eq!(buffer.get_line_by_line_index(2).unwrap(), "f");
    assert!(buffer.get_line_by_line_index(3).is_none());
    let r = buffer.get_line_range_by_char_index(CharIndex(4)).unwrap();
    assert_eq!((r.start.0, r.end.0), (3, 7));
    assert_eq!(
        buffer
            .slice(&CharIndexRange::new(3, 6))
            .unwrap(),
        "cdé"
    );
}

#[test]
fn apply_transaction_and_undo_redo() {
    let mut buffer = Buffer::new(None, "hello world");
    let tx = EditTransaction::from_edits(vec![edit(0, 5, "hello", "goodbye")]);
    let (_, protocol_edits) = buffer
        .apply_edit_transaction(&tx, SelectionSet::default(), false, true, 0)
        .unwrap();
    assert_eq!(buffer.content(), "goodbye world");
    assert!(buffer.dirty());
    assert_eq!(buffer.owner(), BufferOwner::User);
    assert_eq!(protocol_edits.len(), 1);
    assert_eq!(protocol_edits[0].new_text, "goodbye");

    // undo restores the prior text; redo reapplies the transaction
    let undone = buffer.undo(0).unwrap();
    assert!(undone.is_some());
    assert_eq!(buffer.content(), "hello world");
    let redone = buffer.redo(0).unwrap();
    assert!(redone.is_some());
    assert_eq!(buffer.content(), "goodbye world");
    let undone_again = buffer.undo(0).unwrap();
    assert!(undone_again.is_some());
    assert_eq!(buffer.content(), "hello world");
    // nothing left to undo
    assert!(buffer.undo(0).unwrap().is_none());
}

#[test]
fn multi_edit_transaction_applies_against_one_snapshot() {
    let mut buffer = Buffer::new(None, "aa bb cc");
    let tx = EditTransaction::from_edits(vec![
        edit(0, 2, "aa", "xxx"),
        edit(3, 5, "bb", "y"),
        edit(6, 8, "cc", "zzzz"),
    ]);
    buffer
        .apply_edit_transaction(&tx, SelectionSet::default(), false, true, 0)
        .unwrap();
    assert_eq!(buffer.content(), "xxx y zzzz");
    buffer.undo(0).unwrap();
    assert_eq!(buffer.content(), "aa bb cc");
}

#[test]
fn overlapping_transaction_is_rejected_atomically() {
    let mut buffer = Buffer::new(None, "abcdef");
    let tx = EditTransaction::from_edits(vec![edit(0, 3, "abc", "x"), edit(2, 4, "cd", "y")]);
    let res = buffer.apply_edit_transaction(&tx, SelectionSet::default(), false, true, 0);
    assert!(res.is_err());
    assert_eq!(buffer.content(), "abcdef");
}

/// A mark whose range is fully deleted is absent after the edit; one
/// entirely outside the edited region is unchanged; one partially
/// overlapping is resized consistently with the edit's length delta.
#[test]
fn mark_remap_cases() {
    let mut buffer = Buffer::new(None, "0123456789");
    buffer.save_marks(vec![
        CharIndexRange::new(0, 2),  // before the edit: unchanged
        CharIndexRange::new(4, 6),  // inside the deleted range: dropped
        CharIndexRange::new(5, 9),  // straddles the right boundary: resized
        CharIndexRange::new(8, 10), // after the edit: shifted by the delta
    ]);
    // delete [4, 7) and insert one character: delta = -2
    let tx = EditTransaction::from_edits(vec![edit(4, 7, "456", "x")]);
    buffer
        .apply_edit_transaction(&tx, SelectionSet::default(), false, true, 0)
        .unwrap();
    assert_eq!(buffer.content(), "0123x789");
    let marks = buffer.marks();
    assert_eq!(
        marks,
        vec![
            CharIndexRange::new(0, 2),
            CharIndexRange::new(5, 7),
            CharIndexRange::new(6, 8),
        ]
    );
}

#[test]
fn diagnostics_remap_like_marks() {
    let mut buffer = Buffer::new(None, "0123456789");
    buffer.set_diagnostics(vec![
        DiagnosticRecord {
            start: Position { line: 0, column: 0 },
            end: Position { line: 0, column: 2 },
            message: "keep".to_string(),
        },
        DiagnosticRecord {
            start: Position { line: 0, column: 4 },
            end: Position { line: 0, column: 6 },
            message: "drop".to_string(),
        },
    ]);
    let tx = EditTransaction::from_edits(vec![edit(4, 7, "456", "")]);
    buffer
        .apply_edit_transaction(&tx, SelectionSet::default(), false, true, 0)
        .unwrap();
    let diagnostics = buffer.diagnostics();
    assert_eq!(diagnostics.len(), 1);
    assert_eq!(diagnostics[0].message, "keep");
    assert_eq!(diagnostics[0].range, CharIndexRange::new(0, 2));
}

#[test]
fn only_update_syntax_highlight_spans_of_same_batch_id() {
    let mut buffer = Buffer::new(None, "");
    let initial_batch_id = buffer.batch_id();

    let initial_spans = buffer.highlighted_spans().clone();

    // Update the buffer: the batch id advances
    buffer
        .update_content("testing", SelectionSet::default(), 1)
        .unwrap();

    // A result computed for the initial batch id must be discarded
    let new_highlighted_spans = HighlightedSpans(vec![HighlightedSpan {
        byte_start: 0,
        byte_end: 0,
        style_key: 0,
    }]);
    let kept = new_highlighted_spans.0.clone();
    buffer.update_highlighted_spans(initial_batch_id, new_highlighted_spans);

    assert_eq!(&initial_spans, buffer.highlighted_spans());
    assert_ne!(&kept, buffer.highlighted_spans());

    // A result for the current batch id is applied
    let current = buffer.batch_id();
    buffer.update_highlighted_spans(
        current,
        HighlightedSpans(vec![HighlightedSpan {
            byte_start: 1,
            byte_end: 2,
            style_key: 7,
        }]),
    );
    assert_eq!(buffer.highlighted_spans().len(), 1);
}

#[test]
fn highlight_spans_shift_with_edits() {
    let mut buffer = Buffer::new(None, "aaa bbb ccc\n");
    let current = buffer.batch_id();
    buffer.update_highlighted_spans(
        current,
        HighlightedSpans(vec![
            HighlightedSpan {
                byte_start: 0,
                byte_end: 3,
                style_key: 1,
            },
            HighlightedSpan {
                byte_start: 8,
                byte_end: 11,
                style_key: 2,
            },
        ]),
    );
    // replace "bbb" (bytes 4..7) with "x": delta is -2; window covers line 0
    let tx = EditTransaction::from_edits(vec![edit(4, 7, "bbb", "x")]);
    buffer
        .apply_edit_transaction(&tx, SelectionSet::default(), false, true, 0)
        .unwrap();
    let spans = buffer.highlighted_spans();
    assert_eq!(spans.len(), 2);
    assert_eq!((spans[0].byte_start, spans[0].byte_end), (0, 3));
    assert_eq!((spans[1].byte_start, spans[1].byte_end), (6, 9));
}

#[test]
fn selection_history_is_remapped_not_cleared() {
    let mut buffer = Buffer::new(None, "0123456789");
    let set = SelectionSet::new(vec![editor_core::selection::Selection::new(
        CharIndexRange::new(8, 10),
    )]);
    buffer.push_selection_set_history(set);
    buffer.push_selection_set_history(SelectionSet::new(vec![
        editor_core::selection::Selection::new(CharIndexRange::new(0, 1)),
    ]));
    // delete [4, 7): selections past the edit shift left by 3
    let tx = EditTransaction::from_edits(vec![edit(4, 7, "456", "")]);
    buffer
        .apply_edit_transaction(&tx, SelectionSet::default(), false, true, 0)
        .unwrap();
    let previous = buffer.previous_selection_set().unwrap();
    assert_eq!(previous.selections[0].range, CharIndexRange::new(5, 7));
    let next = buffer.next_selection_set().unwrap();
    assert_eq!(next.selections[0].range, CharIndexRange::new(0, 1));
}

#[test]
fn quickfix_items_survive_edits_as_positions() {
    let mut buffer = Buffer::new(None, "aaa\nbbb\nccc\n");
    buffer.update_quickfix_list_items(vec![QuickfixItem {
        start: Position { line: 2, column: 0 },
        end: Position { line: 2, column: 3 },
        message: "third line".to_string(),
    }]);
    // insert a line before line 2
    let tx = EditTransaction::from_edits(vec![edit(4, 4, "", "xxx\n")]);
    buffer
        .apply_edit_transaction(&tx, SelectionSet::default(), false, true, 9)
        .unwrap();
    assert_eq!(buffer.content(), "aaa\nxxx\nbbb\nccc\n");
    let items = buffer.quickfix_list_items();
    assert_eq!(items.len(), 1);
    assert_eq!(items[0].start, Position { line: 3, column: 0 });
    assert_eq!(items[0].end, Position { line: 3, column: 3 });
}

#[test]
fn save_marks_toggles() {
    let mut buffer = Buffer::new(None, "0123456789");
    buffer.save_marks(vec![CharIndexRange::new(0, 2)]);
    assert_eq!(buffer.marks(), vec![CharIndexRange::new(0, 2)]);
    // marking the same range again unmarks it, a new range is added
    buffer.save_marks(vec![CharIndexRange::new(0, 2), CharIndexRange::new(3, 4)]);
    assert_eq!(buffer.marks(), vec![CharIndexRange::new(3, 4)]);
}

/// A reconciled content update is undoable: undo restores the exact prior
/// text.
#[test]
fn update_content_is_undoable() {
    let mut buffer = Buffer::new(None, " fn main\n() {}");
    buffer
        .update_content("fn main() {}\n", SelectionSet::default(), 0)
        .unwrap();
    assert_eq!(buffer.content(), "fn main() {}\n");
    buffer.undo(0).unwrap();
    assert_eq!(buffer.content(), " fn main\n() {}");
}

#[test]
fn update_replaces_content_without_history() {
    let mut buffer = Buffer::new(None, "before");
    buffer.update("after");
    assert_eq!(buffer.content(), "after");
    assert!(buffer.dirty());
    assert_eq!(buffer.owner(), BufferOwner::User);
    assert!(buffer.undo(0).unwrap().is_none());
}

#[test]
fn persistence_flags() {
    let mut buffer = Buffer::new(None, "x");
    assert!(!buffer.should_persist(false));
    assert!(buffer.should_persist(true));
    buffer.update("y");
    assert!(buffer.should_persist(false));
    buffer.mark_saved();
    assert!(!buffer.should_persist(false));
    buffer.set_path("main.rs".to_string());
    assert_eq!(buffer.path().unwrap(), "main.rs");
}
