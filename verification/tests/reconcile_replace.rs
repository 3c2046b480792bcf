use editor_core::buffer::{Buffer, RegexConfig, StructEdit};
use editor_core::edit::EditTransaction;
use editor_core::position::CharIndex;
use editor_core::selection::SelectionSet;

fn run_test(old: &str, new: &str) -> EditTransaction {
    let mut buffer = Buffer::new(Some(tree_sitter_md::LANGUAGE.into()), old);

    let edit_transaction = buffer.get_edit_transaction(new);

    buffer
        .apply_edit_transaction(&edit_transaction, SelectionSet::default(), true, true, 0)
        .unwrap();

    assert_eq!(buffer.content(), new);

    edit_transaction
}

#[test]
fn empty_line_removal() {
    let old = r#"
            let y = "2";
            let z = 3;

            let a = 4;
            "#
    .trim();

    let new = r#"
            let y = "2";
            let z = 3;
            let a = 4;
            "#
    .trim();

    run_test(old, new);
}

#[test]
fn all_kinds_of_edits() {
    let old = r#"
            let x = "1";
            let y = "2";
            let z = 3;
            let a = 4;
            let b = 4;
            // This line will be removed
                "#
    .trim();

    let new = r#"
            let x = "this line is replaced
                     with multiline content"
            let y = "2";
            let z = 3;
            // This is a newly inserted line
            let a = 4;
            let b = 4;
                            "#
    .trim();

    let edit_transaction = run_test(old, new);

    assert_eq!(edit_transaction.edits().len(), 3);
}

#[test]
fn empty_line_with_whitespaces() {
    let old = r#"
fn main() {
    let x = x;

let z = z;

    let y = y;
}
"#
    .trim();

    let new = r#"
fn main() {
    let x = x;

    let z = z;

    let y = y;
}
"#
    .trim();

    run_test(old, new);
}

#[test]
fn newline_insertion() {
    run_test("", "\n");
}

#[test]
fn newline_removal() {
    run_test("\n", "");
}

/// Removing a trailing blank line reconciles as a single edit group spanning
/// exactly the deleted line.
#[test]
fn trailing_blank_line_single_edit() {
    let old = "alpha\nbeta\n\n";
    let new = "alpha\nbeta\n";
    let buffer = Buffer::new(None, old);
    let tx = buffer.get_edit_transaction(new);
    assert_eq!(tx.action_groups.len(), 1);
    let edits = tx.edits();
    assert_eq!(edits.len(), 1);
    assert_eq!(edits[0].range.start.0, 11);
    assert_eq!(edits[0].range.end.0, 12);
    assert_eq!(edits[0].old, "\n");
    assert_eq!(edits[0].new, "");
}

fn test_replace(input: &str, config: RegexConfig, search: &str, replacement: &str, expected: &str) {
    let mut buffer = Buffer::new(None, input);
    buffer
        .replace(config, search, replacement, SelectionSet::default(), 0)
        .unwrap();
    assert_eq!(buffer.content(), expected);
}

#[test]
fn literal_1() {
    test_replace(
        "hel. help hel.o",
        RegexConfig {
            escaped: true,
            case_sensitive: false,
            match_whole_word: false,
        },
        "hel.",
        "wow",
        "wow help wowo",
    );
}

#[test]
fn regex_capture_group() {
    test_replace(
        "123x456",
        RegexConfig {
            escaped: false,
            case_sensitive: false,
            match_whole_word: false,
        },
        r"(\d+)",
        r"($1)",
        "(123)x(456)",
    );
}

/// Structural pattern replacement: the matcher's rewrites (the matches of
/// `replace($X,$Y)` rewritten to `replace($Y,$X)`) are applied as one
/// transaction.
#[test]
fn ast_group_1() {
    let input = "fn main() { replace(x + 1, f(2)); replace(a,b) }";
    let mut buffer = Buffer::new(Some(tree_sitter_rust::LANGUAGE.into()), input);
    let first = input.find("replace(x + 1, f(2))").unwrap();
    let second = input.find("replace(a,b)").unwrap();
    let edits = vec![
        StructEdit {
            position_byte: first,
            deleted_length: "replace(x + 1, f(2))".chars().count(),
            inserted_text: "replace(f(2),x + 1)".to_string(),
        },
        StructEdit {
            position_byte: second,
            deleted_length: "replace(a,b)".chars().count(),
            inserted_text: "replace(b,a)".to_string(),
        },
    ];
    let (modified, _, _) = buffer
        .replace_with_structural_edits(&edits, SelectionSet::default(), 0)
        .unwrap();
    assert!(modified);
    assert_eq!(
        buffer.content(),
        "fn main() { replace(f(2),x + 1); replace(b,a) }"
    );
}

#[test]
fn whole_word_replace() {
    test_replace(
        "cat catalog cat",
        RegexConfig {
            escaped: true,
            case_sensitive: true,
            match_whole_word: true,
        },
        "cat",
        "dog",
        "dog catalog dog",
    );
}

#[test]
fn case_insensitive_replace() {
    test_replace(
        "Rust rust RUST",
        RegexConfig {
            escaped: true,
            case_sensitive: false,
            match_whole_word: false,
        },
        "rust",
        "ore",
        "ore ore ore",
    );
}

#[test]
fn invalid_pattern_is_rejected_and_harmless() {
    let mut buffer = Buffer::new(None, "text");
    let err = buffer.replace(
        RegexConfig {
            escaped: false,
            case_sensitive: true,
            match_whole_word: false,
        },
        "(unclosed",
        "x",
        SelectionSet::default(),
        0,
    );
    assert!(err.is_err());
    assert_eq!(buffer.content(), "text");
}

/// Reconciliation round-trips exactly: after `update_content` the buffer
/// holds the new text, whatever the old one was.
#[test]
fn reconcile_round_trip() {
    let cases = [
        ("", "hello"),
        ("hello", ""),
        ("a\nb\nc\n", "a\nx\nc\n"),
        ("one\ntwo\nthree", "zero\none\nthree\nfour\n"),
        ("same\n", "same\n"),
        ("héllo wörld\n", "hèllo wörld\nmöre\n"),
    ];
    for (old, new) in cases {
        let mut buffer = Buffer::new(None, old);
        buffer
            .update_content(new, SelectionSet::default(), 0)
            .unwrap();
        assert_eq!(buffer.content(), new);
    }
}

/// The delegated (externally rewritten) replace mode folds the rewritten
/// text back in and reports whether anything changed.
#[test]
fn replace_with_rewritten_reports_change() {
    let mut buffer = Buffer::new(None, "snake_case here");
    let (modified, _, _) = buffer
        .replace_with_rewritten("camelCase here", SelectionSet::default(), 0)
        .unwrap();
    assert!(modified);
    assert_eq!(buffer.content(), "camelCase here");
    let (modified2, _, _) = buffer
        .replace_with_rewritten("camelCase here", SelectionSet::default(), 0)
        .unwrap();
    assert!(!modified2);
}

#[test]
fn words_are_deduplicated_in_order() {
    let buffer = Buffer::new(None, "fox box fox lox box");
    let words = buffer.words();
    assert_eq!(words, vec!["fox", "box", "lox"]);
}

#[test]
fn word_before_char_index() {
    let buffer = Buffer::new(None, "alpha beta gamma");
    assert_eq!(
        buffer.get_word_before_char_index(CharIndex(10)).unwrap(),
        "beta"
    );
    assert_eq!(
        buffer.get_word_before_char_index(CharIndex(0)).unwrap(),
        ""
    );
    assert_eq!(
        buffer.get_word_before_char_index(CharIndex(16)).unwrap(),
        "gamma"
    );
    assert!(buffer.get_word_before_char_index(CharIndex(17)).is_err());
}
