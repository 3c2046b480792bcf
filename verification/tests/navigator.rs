use editor_core::buffer::Buffer;
use editor_core::char_index_range::CharIndexRange;
use editor_core::position::CharIndex;
use editor_core::selection::{Selection, SelectionSet};
use editor_core::suggestive_editor::{
    Completion, CompletionItem, KeyInput, Mode, SuggestiveEditor, SuggestiveEditorAction,
};
use editor_core::syntax_tree::{RawNode, SyntaxTree};

#[test]
fn get_parent_lines_1() {
    let buffer = Buffer::new(
        Some(tree_sitter_yaml::LANGUAGE.into()),
        "
- spongebob
- who:
  - lives
  - in:
    - a
    - pineapple
  - under
",
    );
    let actual = buffer
        .get_parent_lines(6)
        .unwrap()
        .into_iter()
        .map(|line| line.content)
        .collect::<Vec<_>>()
        .join("\n");
    let expected = "
- who:
  - in:
"
    .trim()
    .to_string();
    assert_eq!(actual, expected);
}

#[test]
fn get_parent_lines_2() {
    let buffer = Buffer::new(
        Some(tree_sitter_rust::LANGUAGE.into()),
        "
fn f(
  x: X
) -> Result<
  A,
  B
> {
  hello
}",
    );
    let actual = buffer
        .get_parent_lines(5)
        .unwrap()
        .into_iter()
        .map(|line| line.content)
        .collect::<Vec<_>>()
        .join("\n");
    let expected = "
fn f(
) -> Result<"
        .trim()
        .to_string();
    assert_eq!(actual, expected);
}

/// Ancestor lines come top-to-bottom, strictly above the queried line, with
/// duplicate contents and duplicate indentation columns removed — shown here
/// on a hand-built preorder tree over a plain text.
#[test]
fn parent_lines_order_and_dedup() {
    let text = "outer {\n  mid {\n    inner {\n      x\n    }\n  }\n}\n";
    let mut buffer = Buffer::new(None, text);
    // a preorder tree: root spans all, then nested blocks starting on lines
    // 0, 1, 2, and the leaf on line 3
    let raw = vec![
        RawNode { id: 1, parent_id: None, start_byte: 0, end_byte: 48, has_error: false },
        RawNode { id: 2, parent_id: Some(1), start_byte: 0, end_byte: 47, has_error: false },
        RawNode { id: 3, parent_id: Some(2), start_byte: 10, end_byte: 44, has_error: false },
        RawNode { id: 4, parent_id: Some(3), start_byte: 20, end_byte: 41, has_error: false },
        RawNode { id: 5, parent_id: Some(4), start_byte: 34, end_byte: 35, has_error: false },
    ];
    assert!(SyntaxTree::from_raw(&raw).is_some());
    buffer.set_tree(SyntaxTree::from_raw(&raw));
    let lines = buffer.get_parent_lines(3).unwrap();
    let contents: Vec<String> = lines.iter().map(|l| l.content.clone()).collect();
    assert_eq!(contents, vec!["outer {", "  mid {", "    inner {"]);
    for w in lines.windows(2) {
        assert!(w[0].line <= w[1].line);
    }
    for l in &lines {
        assert!(l.line < 3);
    }
}

#[test]
fn current_node_promotes_to_outermost_same_span() {
    let text = "abcdef";
    let mut buffer = Buffer::new(None, text);
    // two nested nodes with the same span [1, 4), below the root
    let raw = vec![
        RawNode { id: 1, parent_id: None, start_byte: 0, end_byte: 6, has_error: false },
        RawNode { id: 2, parent_id: Some(1), start_byte: 1, end_byte: 4, has_error: false },
        RawNode { id: 3, parent_id: Some(2), start_byte: 1, end_byte: 4, has_error: false },
    ];
    buffer.set_tree(SyntaxTree::from_raw(&raw));
    let selection = Selection::new(CharIndexRange::new(1, 4));
    // the deepest covering node is index 2; promotion lifts it to index 1
    let node = buffer.get_current_node(&selection, false).unwrap().unwrap();
    assert_eq!(node, 1);
}

#[test]
fn nearest_node_after_char_walks_preorder() {
    let mut buffer = Buffer::new(None, "abcdef");
    let raw = vec![
        RawNode { id: 1, parent_id: None, start_byte: 0, end_byte: 6, has_error: false },
        RawNode { id: 2, parent_id: Some(1), start_byte: 2, end_byte: 4, has_error: false },
        RawNode { id: 3, parent_id: Some(1), start_byte: 4, end_byte: 6, has_error: false },
    ];
    buffer.set_tree(SyntaxTree::from_raw(&raw));
    assert_eq!(buffer.get_nearest_node_after_char(CharIndex(1)), Some(1));
    assert_eq!(buffer.get_nearest_node_after_char(CharIndex(0)), Some(0));
    assert_eq!(buffer.get_nearest_node_after_char(CharIndex(5)), None);
}

#[test]
fn syntax_error_detection() {
    let buffer = Buffer::new(Some(tree_sitter_rust::LANGUAGE.into()), "fn main() {");
    assert!(buffer.has_syntax_error_at(CharIndexRange::new(0, 11)));
    let ok = Buffer::new(Some(tree_sitter_rust::LANGUAGE.into()), "fn main() {}");
    assert!(!ok.has_syntax_error_at(CharIndexRange::new(0, 12)));
}

#[test]
fn range_is_node() {
    let mut buffer = Buffer::new(None, "abcdef");
    let raw = vec![
        RawNode { id: 1, parent_id: None, start_byte: 0, end_byte: 6, has_error: false },
        RawNode { id: 2, parent_id: Some(1), start_byte: 2, end_byte: 4, has_error: false },
    ];
    buffer.set_tree(SyntaxTree::from_raw(&raw));
    assert!(buffer.given_range_is_node(&CharIndexRange::new(2, 4)));
    assert!(!buffer.given_range_is_node(&CharIndexRange::new(2, 5)));
}

fn completion(labels: &[&str]) -> Completion {
    Completion {
        items: labels
            .iter()
            .map(|l| CompletionItem::from_label(l.to_string()))
            .collect(),
        trigger_characters: vec![".".to_string()],
    }
}

#[test]
fn set_completion() {
    let mut editor = SuggestiveEditor::from_buffer(Buffer::new(None, "hello"));
    assert!(!editor.dropdown_opened());
    editor.set_completion(completion(&["foo", "bar"]));
    assert!(editor.dropdown_opened());
    let item = editor.current_item().unwrap();
    assert_eq!(item.label(), "foo");
}

#[test]
fn enter_insert_mode() {
    let mut editor = SuggestiveEditor::from_buffer(Buffer::new(None, ""));
    assert_eq!(editor.editor().mode, Mode::Normal);
    editor.enter_insert_mode();
    assert_eq!(editor.editor().mode, Mode::Insert);
}

#[test]
fn current_item() {
    let mut editor = SuggestiveEditor::from_buffer(Buffer::new(None, ""));
    assert!(editor.current_item().is_none());
    editor.set_completion(completion(&["alpha", "beta"]));
    editor.enter_insert_mode();
    editor.handle_key_input(KeyInput::MoveDown);
    assert_eq!(editor.current_item().unwrap().label(), "beta");
    editor.handle_key_input(KeyInput::MoveDown);
    assert_eq!(editor.current_item().unwrap().label(), "beta");
    editor.handle_key_input(KeyInput::MoveUp);
    assert_eq!(editor.current_item().unwrap().label(), "alpha");
}

#[test]
fn dropdown_opened() {
    let mut editor = SuggestiveEditor::from_buffer(Buffer::new(None, ""));
    assert!(!editor.dropdown_opened());
    editor.set_completion(completion(&["x"]));
    assert!(editor.dropdown_opened());
    editor.enter_insert_mode();
    let action = editor.handle_key_input(KeyInput::Dismiss);
    assert!(matches!(action, SuggestiveEditorAction::DropdownClosed));
    assert!(!editor.dropdown_opened());
}

#[test]
fn confirm_accepts_highlighted_completion() {
    let mut editor = SuggestiveEditor::from_buffer(Buffer::new(None, ""));
    editor.set_completion(completion(&["first", "second"]));
    editor.enter_insert_mode();
    editor.handle_key_input(KeyInput::MoveDown);
    let action = editor.handle_key_input(KeyInput::Confirm);
    match action {
        SuggestiveEditorAction::CompletionAccepted(item) => {
            assert_eq!(item.label(), "second");
        }
        _ => panic!("expected the completion to be accepted"),
    }
    assert!(!editor.dropdown_opened());
}

#[test]
fn events_outside_insert_mode_are_forwarded() {
    let mut editor = SuggestiveEditor::from_buffer(Buffer::new(None, ""));
    editor.set_completion(completion(&["x"]));
    let action = editor.handle_key_input(KeyInput::MoveDown);
    assert!(matches!(action, SuggestiveEditorAction::ForwardToEditor));
    assert!(editor.dropdown_opened());
}

#[test]
fn show_info_fills_panel() {
    let mut editor = SuggestiveEditor::from_buffer(Buffer::new(None, ""));
    editor.show_info("documentation".to_string());
    assert_eq!(editor.info_panel.as_deref(), Some("documentation"));
}
