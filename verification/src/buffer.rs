//! The buffer: the authoritative text snapshot with its syntax tree, its
//! range-tracking satellites (marks, diagnostics, quickfix items, highlight
//! spans), the selection history, and the transactional edit/undo/redo
//! machinery. Every coordinate conversion and every mutation is specified
//! against the text model in [`crate::text_model`].

use vstd::prelude::*;

verus! {

use crate::char_index_range::CharIndexRange;
use crate::position::{CharIndex, Position, ProtocolPosition};
use crate::rope_store::{
    rope_byte_to_char, rope_char_at, rope_char_to_byte, rope_char_to_line, rope_chars,
    rope_from_str, rope_insert, rope_len, rope_len_bytes, rope_len_lines, rope_line,
    rope_line_to_char, rope_remove, rope_string,
};
use crate::selection::{SelectionHistory, SelectionSet};
use crate::syntax_highlight::{HighlightedSpan, HighlightedSpans, SyntaxHighlightRequestBatchId};
use crate::syntax_tree::{parse_raw_nodes, SyntaxTree};
use vstd::string::StrSliceExecFns;
use vstd::string::StringExecFns;
use crate::text_model::{
    byte_index_of, char_index_at_byte, lemma_byte_index_monotone, lemma_line_index_monotone,
    lemma_line_start_bounds, lemma_line_start_is_on_line, lemma_line_start_monotone,
    lemma_line_start_of_line_index, lemma_newline_count_nonneg, line_index_of, line_start,
    newline_count,
};

/// Who last authored a buffer. System-owned buffers (for example those filled
/// from diagnostics) are excluded from user-facing buffer-switch lists.
#[derive(Clone, Copy, PartialEq, Eq, Structural, Debug)]
pub enum BufferOwner {
    User,
    System,
}

/// The errors of the engine. Any failing operation leaves the buffer exactly
/// as it was.
#[derive(Clone, Copy, PartialEq, Eq, Structural, Debug)]
pub enum CoreError {
    /// An index or position lies beyond the text.
    OutOfBounds,
    /// A transaction's ranges are malformed, overlapping, out of bounds, or
    /// its inverse does not fit the machine's index type.
    InvalidTransaction,
    /// A search pattern was rejected by the pattern engine.
    Pattern,
}

/// A diagnostic attached to a character range.
#[derive(Debug)]
pub struct Diagnostic {
    pub range: CharIndexRange,
    pub message: String,
}

/// A record handed in by the protocol layer: a diagnostic expressed in
/// line/column positions.
#[derive(Debug)]
pub struct DiagnosticRecord {
    pub start: Position,
    pub end: Position,
    pub message: String,
}

/// A quickfix entry: a position-addressed range, remapped through edits by
/// converting to character ranges against the pre-edit text.
#[derive(Debug)]
pub struct QuickfixItem {
    pub start: Position,
    pub end: Position,
    pub message: String,
}

/// A byte range of the text.
#[derive(Clone, Copy, PartialEq, Eq, Structural, Debug)]
pub struct ByteRange {
    pub start: usize,
    pub end: usize,
}

/// The number of lines as the editor counts them: a final `'\n'` terminates
/// the last line rather than opening a new one.
pub open spec fn visible_line_count(s: Seq<char>) -> int {
    newline_count(s) + 1 - (if s.len() > 0 && s[s.len() - 1] == '\n' {
        1int
    } else {
        0int
    })
}

/// Where a clamped position lands: the line is clamped to the visible line
/// count, the column to that line's character length (0 when the line does
/// not exist), and the result is the line's start plus the column.
pub open spec fn pos_to_char_spec(s: Seq<char>, line: int, column: int) -> int {
    let lc = if line <= visible_line_count(s) {
        line
    } else {
        visible_line_count(s)
    };
    let line_len = if lc <= newline_count(s) {
        line_start(s, lc + 1) - line_start(s, lc)
    } else {
        0
    };
    let col = if column <= line_len {
        column
    } else {
        line_len
    };
    line_start(s, lc) + col
}

/// The buffer.
pub struct Buffer {
    rope: ropey::Rope,
    tree: Option<SyntaxTree>,
    treesitter_language: Option<tree_sitter::Language>,
    path: Option<String>,
    highlighted_spans: HighlightedSpans,
    marks: Vec<CharIndexRange>,
    diagnostics: Vec<Diagnostic>,
    quickfix_list_items: Vec<QuickfixItem>,
    selection_set_history: SelectionHistory,
    dirty: bool,
    owner: BufferOwner,
    undo_stack: Vec<EditHistory>,
    redo_stack: Vec<EditHistory>,
    batch_id: SyntaxHighlightRequestBatchId,
}

/// The selection set and the marks captured around one applied transaction.
pub struct BufferState {
    pub selection_set: SelectionSet,
    pub marks: Vec<CharIndexRange>,
}

/// One entry of the edit history. `edit_transaction` is the inverse of what
/// was applied, so undoing is applying it. Both directions of the
/// protocol-level diff are precomputed here: they cannot be derived later,
/// because the buffer states they were measured against no longer exist.
pub struct EditHistory {
    pub edit_transaction: crate::edit::EditTransaction,
    pub old_state: BufferState,
    pub new_state: BufferState,
    pub unnormalized_edits: Vec<crate::position::ProtocolDiffEdit>,
    pub inverted_unnormalized_edits: Vec<crate::position::ProtocolDiffEdit>,
}

/// The mathematical content of a [`Diagnostic`].
pub ghost struct DiagView {
    pub lo: int,
    pub hi: int,
    pub message: Seq<char>,
}

/// The mathematical content of a [`QuickfixItem`].
pub ghost struct QuickfixView {
    pub start_line: int,
    pub start_column: int,
    pub end_line: int,
    pub end_column: int,
    pub message: Seq<char>,
}

pub open spec fn diag_views(s: Seq<Diagnostic>) -> Seq<DiagView> {
    s.map_values(|d: Diagnostic| d.dv())
}

pub open spec fn qf_views(s: Seq<QuickfixItem>) -> Seq<QuickfixView> {
    s.map_values(|q: QuickfixItem| q.qv())
}

impl Diagnostic {
    pub open spec fn dv(self) -> DiagView {
        DiagView {
            lo: self.range.start.0 as int,
            hi: self.range.end.0 as int,
            message: self.message@,
        }
    }
}

impl QuickfixItem {
    pub open spec fn qv(self) -> QuickfixView {
        QuickfixView {
            start_line: self.start.line as int,
            start_column: self.start.column as int,
            end_line: self.end.line as int,
            end_column: self.end.column as int,
            message: self.message@,
        }
    }
}

impl Buffer {
    /// The text, as the mathematical model sees it.
    pub closed spec fn text(self) -> Seq<char> {
        rope_chars(self.rope)
    }

    pub closed spec fn diagnostics_view(self) -> Seq<DiagView> {
        diag_views(self.diagnostics@)
    }

    pub closed spec fn quickfix_view(self) -> Seq<QuickfixView> {
        qf_views(self.quickfix_list_items@)
    }

    pub closed spec fn undo_count(self) -> int {
        self.undo_stack@.len() as int
    }

    pub closed spec fn redo_count(self) -> int {
        self.redo_stack@.len() as int
    }

    pub closed spec fn tree_view(self) -> Option<Seq<crate::syntax_tree::SyntaxNode>> {
        match self.tree {
            Some(t) => Some(t.nodes@),
            None => None,
        }
    }

    /// The buffer's internal invariant: the navigation history is
    /// well-formed and the tree (when present) is a well-formed preorder
    /// tree. Satellite ranges may go stale (an external producer or a
    /// wholesale text update can leave them so); a stale range is dropped by
    /// the next edit's remapping rather than constrained here.
    pub closed spec fn wf(self) -> bool {
        &&& self.selection_set_history.wf()
        &&& match self.tree {
            Some(t) => t.wf(),
            None => true,
        }
    }

    /// Build a buffer over `text`, parsing it when a grammar is supplied and
    /// it yields a well-formed tree.
    pub fn new(language: Option<tree_sitter::Language>, text: &str) -> (res: Buffer)
        ensures
            res.wf(),
            res.text() == text@,
            !res.dirty_spec(),
            res.owner_spec() == BufferOwner::System,
            res.marks_view().len() == 0,
            res.diagnostics_view().len() == 0,
            res.quickfix_view().len() == 0,
            res.highlighted_spans_view().len() == 0,
            res.batch_id_spec() == 0,
            res.undo_count() == 0,
            res.redo_count() == 0,
            res.path_view() is None,
            language is None ==> res.tree_view() is None,
    {
        let tree = match &language {
            Some(lang) => match parse_raw_nodes(lang, text) {
                Some(raw) => SyntaxTree::from_raw(&raw),
                None => None,
            },
            None => None,
        };
        Buffer {
            rope: rope_from_str(text),
            tree,
            treesitter_language: language,
            path: None,
            highlighted_spans: HighlightedSpans::new(),
            marks: Vec::new(),
            diagnostics: Vec::new(),
            quickfix_list_items: Vec::new(),
            selection_set_history: SelectionHistory::new(),
            dirty: false,
            owner: BufferOwner::System,
            undo_stack: Vec::new(),
            redo_stack: Vec::new(),
            batch_id: SyntaxHighlightRequestBatchId::new(),
        }
    }

    pub closed spec fn dirty_spec(self) -> bool {
        self.dirty
    }

    pub closed spec fn owner_spec(self) -> BufferOwner {
        self.owner
    }

    pub closed spec fn batch_id_spec(self) -> u64 {
        self.batch_id.0
    }

    pub closed spec fn highlighted_spans_view(self) -> Seq<HighlightedSpan> {
        self.highlighted_spans.0@
    }

    pub closed spec fn marks_view(self) -> Seq<CharIndexRange> {
        self.marks@
    }

    /// Has the buffer changed since its last save?
    pub fn dirty(&self) -> (res: bool)
        ensures
            res == self.dirty_spec(),
    {
        self.dirty
    }

    pub fn owner(&self) -> (res: BufferOwner)
        ensures
            res == self.owner_spec(),
    {
        self.owner
    }

    pub fn set_owner(&mut self, owner: BufferOwner)
        requires
            old(self).wf(),
        ensures
            final(self).wf(),
            final(self).owner_spec() == owner,
            final(self).text() == old(self).text(),
            final(self).dirty_spec() == old(self).dirty_spec(),
    {
        self.owner = owner;
    }

    pub closed spec fn path_view(self) -> Option<Seq<char>> {
        match self.path {
            Some(p) => Some(p@),
            None => None,
        }
    }

    pub fn path(&self) -> (res: Option<&String>)
        ensures
            res is Some <==> self.path_view() is Some,
            res is Some ==> Some(res->0@) == self.path_view(),
    {
        self.path.as_ref()
    }

    pub fn set_path(&mut self, path: String)
        requires
            old(self).wf(),
        ensures
            final(self).wf(),
            final(self).path_view() == Some(path@),
            final(self).text() == old(self).text(),
    {
        self.path = Some(path);
    }

    /// The buffer's full text.
    pub fn content(&self) -> (res: String)
        ensures
            res@ == self.text(),
    {
        rope_string(&self.rope)
    }

    pub fn len_chars(&self) -> (res: usize)
        ensures
            res == self.text().len(),
    {
        rope_len(&self.rope)
    }

    /// Number of lines, counting a single trailing newline as the terminator
    /// of the last line rather than as a new line.
    pub fn len_lines(&self) -> (res: usize)
        ensures
            res == visible_line_count(self.text()),
    {
        let raw = rope_len_lines(&self.rope);
        let n = rope_len(&self.rope);
        proof {
            lemma_newline_count_nonneg(self.text());
        }
        if n > 0 {
            let last = rope_char_at(&self.rope, n - 1);
            if last == '\n' {
                proof {
                    lemma_last_newline_counts(self.text());
                }
                return raw - 1;
            }
        }
        raw
    }

    /// Line index of a character index; one-past-the-end belongs to the last
    /// line. Fails exactly when the index lies beyond the text.
    pub fn char_to_line(&self, char_index: CharIndex) -> (res: Result<usize, CoreError>)
        ensures
            res is Ok <==> char_index.0 <= self.text().len(),
            match res {
                Ok(l) => l == line_index_of(self.text(), char_index.0 as int),
                Err(e) => e == CoreError::OutOfBounds,
            },
    {
        let n = rope_len(&self.rope);
        if char_index.0 > n {
            return Err(CoreError::OutOfBounds);
        }
        Ok(rope_char_to_line(&self.rope, char_index.0))
    }

    /// Character index of the start of a line; the index one past the last
    /// line maps to the text length. Fails exactly when the line lies beyond
    /// that.
    pub fn line_to_char(&self, line_index: usize) -> (res: Result<CharIndex, CoreError>)
        ensures
            res is Ok <==> line_index <= newline_count(self.text()) + 1,
            match res {
                Ok(c) => c.0 == line_start(self.text(), line_index as int),
                Err(e) => e == CoreError::OutOfBounds,
            },
    {
        let raw = rope_len_lines(&self.rope);
        if line_index > raw {
            return Err(CoreError::OutOfBounds);
        }
        Ok(CharIndex(rope_line_to_char(&self.rope, line_index)))
    }

    /// UTF-8 byte offset of a character index. Fails exactly when the index
    /// lies beyond the text.
    pub fn char_to_byte(&self, char_index: CharIndex) -> (res: Result<usize, CoreError>)
        ensures
            res is Ok <==> char_index.0 <= self.text().len(),
            match res {
                Ok(b) => b == byte_index_of(self.text(), char_index.0 as int),
                Err(e) => e == CoreError::OutOfBounds,
            },
    {
        let n = rope_len(&self.rope);
        if char_index.0 > n {
            return Err(CoreError::OutOfBounds);
        }
        Ok(rope_char_to_byte(&self.rope, char_index.0))
    }

    /// Character index containing a byte offset. Fails exactly when the
    /// offset lies beyond the text's UTF-8 size.
    pub fn byte_to_char(&self, byte_index: usize) -> (res: Result<CharIndex, CoreError>)
        ensures
            res is Ok <==> byte_index <= byte_index_of(self.text(), self.text().len() as int),
            match res {
                Ok(c) => c.0 == char_index_at_byte(self.text(), byte_index as int),
                Err(e) => e == CoreError::OutOfBounds,
            },
    {
        let nb = rope_len_bytes(&self.rope);
        if byte_index > nb {
            return Err(CoreError::OutOfBounds);
        }
        Ok(CharIndex(rope_byte_to_char(&self.rope, byte_index)))
    }

    /// Byte offset of the start of a line.
    pub fn line_to_byte(&self, line_index: usize) -> (res: Result<usize, CoreError>)
        ensures
            res is Ok <==> line_index <= newline_count(self.text()) + 1,
            match res {
                Ok(b) => b == byte_index_of(
                    self.text(),
                    line_start(self.text(), line_index as int),
                ),
                Err(e) => e == CoreError::OutOfBounds,
            },
    {
        let c = self.line_to_char(line_index)?;
        proof {
            lemma_line_start_bounds(self.text(), line_index as int);
        }
        self.char_to_byte(c)
    }

    /// Line index of a byte offset.
    pub fn byte_to_line(&self, byte: usize) -> (res: Result<usize, CoreError>)
        ensures
            res is Ok <==> byte <= byte_index_of(self.text(), self.text().len() as int),
            match res {
                Ok(l) => l == line_index_of(
                    self.text(),
                    char_index_at_byte(self.text(), byte as int),
                ),
                Err(e) => e == CoreError::OutOfBounds,
            },
    {
        let c = self.byte_to_char(byte)?;
        proof {
            lemma_char_at_byte_bounds(self.text(), byte as int);
        }
        self.char_to_line(c)
    }

    /// The line/column position of a character index; the column counts
    /// characters from the line start, a newline belonging to the line it
    /// ends.
    pub fn char_to_position(&self, char_index: CharIndex) -> (res: Result<Position, CoreError>)
        ensures
            res is Ok <==> char_index.0 <= self.text().len(),
            match res {
                Ok(p) => {
                    &&& p.line == line_index_of(self.text(), char_index.0 as int)
                    &&& p.column == char_index.0 - line_start(
                        self.text(),
                        line_index_of(self.text(), char_index.0 as int),
                    )
                },
                Err(e) => e == CoreError::OutOfBounds,
            },
    {
        let line = self.char_to_line(char_index)?;
        proof {
            lemma_newline_count_nonneg(self.text().take(char_index.0 as int));
            lemma_line_start_of_line_index(self.text(), char_index.0 as int);
            lemma_newline_count_nonneg(self.text());
            lemma_line_index_monotone(self.text(), char_index.0 as int, self.text().len() as int);
            assert(self.text().take(self.text().len() as int) =~= self.text());
        }
        let line_start_char = rope_line_to_char(&self.rope, line);
        Ok(Position { line, column: char_index.0 - line_start_char })
    }

    /// The same position in the external protocol's 32-bit convention.
    pub fn char_to_vscode_position(&self, char_index: CharIndex) -> (res: Result<
        ProtocolPosition,
        CoreError,
    >)
        ensures
            res is Ok <==> char_index.0 <= self.text().len(),
            match res {
                Ok(p) => {
                    &&& p.line == line_index_of(self.text(), char_index.0 as int) as u32
                    &&& p.character == (char_index.0 - line_start(
                        self.text(),
                        line_index_of(self.text(), char_index.0 as int),
                    )) as u32
                },
                Err(e) => e == CoreError::OutOfBounds,
            },
    {
        let p = self.char_to_position(char_index)?;
        Ok(ProtocolPosition { line: p.line as u32, character: p.column as u32 })
    }

    /// The character index of a position, clamped into the text: an
    /// out-of-range line clamps to the visible line count, an out-of-range
    /// column to the line's length. Never fails.
    pub fn position_to_char(&self, position: Position) -> (res: Result<CharIndex, CoreError>)
        ensures
            res is Ok,
            match res {
                Ok(c) => c.0 == pos_to_char_spec(
                    self.text(),
                    position.line as int,
                    position.column as int,
                ),
                Err(_) => false,
            },
    {
        let text_len = rope_len(&self.rope);
        let vis = self.len_lines();
        let line = if position.line <= vis {
            position.line
        } else {
            vis
        };
        proof {
            lemma_newline_count_nonneg(self.text());
            lemma_vis_line_count_bounds(self.text());
        }
        let count_plus = rope_len_lines(&self.rope);
        let line_len: usize = if line < count_plus {
            let a = rope_line_to_char(&self.rope, line);
            let b = rope_line_to_char(&self.rope, line + 1);
            proof {
                lemma_line_start_monotone(self.text(), line as int, line as int + 1);
            }
            b - a
        } else {
            0
        };
        let column = if position.column <= line_len {
            position.column
        } else {
            line_len
        };
        let start = rope_line_to_char(&self.rope, line);
        proof {
            lemma_line_start_bounds(self.text(), line as int);
            lemma_line_start_bounds(self.text(), line as int + 1);
        }
        Ok(CharIndex(start + column))
    }

    /// Byte offset of a (clamped) position.
    pub fn position_to_byte(&self, start: Position) -> (res: Result<usize, CoreError>)
        ensures
            res is Ok,
            match res {
                Ok(b) => b == byte_index_of(
                    self.text(),
                    pos_to_char_spec(self.text(), start.line as int, start.column as int),
                ),
                Err(_) => false,
            },
    {
        let c = self.position_to_char(start)?;
        proof {
            lemma_pos_to_char_in_bounds(self.text(), start.line as int, start.column as int);
        }
        self.char_to_byte(c)
    }

    /// The text of the character range. Fails exactly when the range is
    /// malformed or beyond the text.
    pub fn slice(&self, range: &CharIndexRange) -> (res: Result<String, CoreError>)
        ensures
            res is Ok <==> range.wf_in(self.text().len() as int),
            match res {
                Ok(s) => s@ == self.text().subrange(range.start.0 as int, range.end.0 as int),
                Err(e) => e == CoreError::OutOfBounds,
            },
    {
        let n = rope_len(&self.rope);
        if range.start.0 > range.end.0 || range.end.0 > n {
            return Err(CoreError::OutOfBounds);
        }
        Ok(crate::rope_store::rope_slice(&self.rope, range.start.0, range.end.0))
    }

    /// The character at an index. Fails exactly when the index is past the
    /// last character.
    pub fn char(&self, cursor_char_index: CharIndex) -> (res: Result<char, CoreError>)
        ensures
            res is Ok <==> cursor_char_index.0 < self.text().len(),
            match res {
                Ok(c) => c == self.text()[cursor_char_index.0 as int],
                Err(e) => e == CoreError::OutOfBounds,
            },
    {
        let n = rope_len(&self.rope);
        if cursor_char_index.0 >= n {
            return Err(CoreError::OutOfBounds);
        }
        Ok(rope_char_at(&self.rope, cursor_char_index.0))
    }

    /// The character under a clamped position, `None` when the position
    /// clamps to the end of the text.
    pub fn get_char_at_position(&self, position: Position) -> (res: Option<char>)
        ensures
            ({
                let c = pos_to_char_spec(self.text(), position.line as int, position.column as int);
                match res {
                    Some(ch) => c < self.text().len() && ch == self.text()[c],
                    None => c >= self.text().len(),
                }
            }),
    {
        let c = match self.position_to_char(position) {
            Ok(c) => c,
            Err(_) => {
                return None;
            },
        };
        let n = rope_len(&self.rope);
        if c.0 < n {
            Some(rope_char_at(&self.rope, c.0))
        } else {
            None
        }
    }

    /// The text of line `line_index`, including its terminating newline;
    /// `None` exactly when the line does not exist.
    pub fn get_line_by_line_index(&self, line_index: usize) -> (res: Option<String>)
        ensures
            res is Some <==> line_index <= newline_count(self.text()),
            match res {
                Some(s) => s@ == self.text().subrange(
                    line_start(self.text(), line_index as int),
                    line_start(self.text(), line_index as int + 1),
                ),
                None => true,
            },
    {
        let raw = rope_len_lines(&self.rope);
        if line_index >= raw {
            return None;
        }
        Some(rope_line(&self.rope, line_index))
    }

    /// The text of the line holding a character index.
    pub fn get_line_by_char_index(&self, char_index: CharIndex) -> (res: Result<String, CoreError>)
        ensures
            res is Ok <==> char_index.0 <= self.text().len(),
            match res {
                Ok(s) => s@ == self.text().subrange(
                    line_start(self.text(), line_index_of(self.text(), char_index.0 as int)),
                    line_start(self.text(), line_index_of(self.text(), char_index.0 as int) + 1),
                ),
                Err(e) => e == CoreError::OutOfBounds,
            },
    {
        let line = self.char_to_line(char_index)?;
        proof {
            lemma_newline_count_nonneg(self.text().take(char_index.0 as int));
            lemma_line_index_monotone(self.text(), char_index.0 as int, self.text().len() as int);
            assert(self.text().take(self.text().len() as int) =~= self.text());
        }
        match self.get_line_by_line_index(line) {
            Some(s) => Ok(s),
            None => Err(CoreError::OutOfBounds),
        }
    }

    /// The character range of the line holding a character index.
    pub fn get_line_range_by_char_index(&self, char_index: CharIndex) -> (res: Result<
        CharIndexRange,
        CoreError,
    >)
        ensures
            res is Ok <==> char_index.0 <= self.text().len(),
            match res {
                Ok(r) => {
                    let l = line_index_of(self.text(), char_index.0 as int);
                    r.start.0 == line_start(self.text(), l) && r.end.0 == line_start(
                        self.text(),
                        l + 1,
                    )
                },
                Err(e) => e == CoreError::OutOfBounds,
            },
    {
        let line = self.char_to_line(char_index)?;
        let raw = rope_len_lines(&self.rope);
        proof {
            lemma_newline_count_nonneg(self.text().take(char_index.0 as int));
            lemma_line_index_monotone(self.text(), char_index.0 as int, self.text().len() as int);
            lemma_newline_count_nonneg(self.text());
            assert(self.text().take(self.text().len() as int) =~= self.text());
        }
        let a = rope_line_to_char(&self.rope, line);
        let b = rope_line_to_char(&self.rope, line + 1);
        Ok(CharIndexRange { start: CharIndex(a), end: CharIndex(b) })
    }

    /// The character range `[start of line, start of line + 1)`.
    pub fn line_to_char_range(&self, line: usize) -> (res: Result<CharIndexRange, CoreError>)
        ensures
            res is Ok <==> line <= newline_count(self.text()),
            match res {
                Ok(r) => r.start.0 == line_start(self.text(), line as int) && r.end.0 == line_start(
                    self.text(),
                    line as int + 1,
                ),
                Err(e) => e == CoreError::OutOfBounds,
            },
    {
        let raw = rope_len_lines(&self.rope);
        if line >= raw {
            return Err(CoreError::OutOfBounds);
        }
        let a = rope_line_to_char(&self.rope, line);
        let b = rope_line_to_char(&self.rope, line + 1);
        Ok(CharIndexRange { start: CharIndex(a), end: CharIndex(b) })
    }

    /// The character range from the start of `range.start` to the start of
    /// line `range.end`.
    pub fn line_range_to_char_index_range(&self, start_line: usize, end_line: usize) -> (res:
        Result<CharIndexRange, CoreError>)
        ensures
            res is Ok <==> start_line <= newline_count(self.text()) + 1 && end_line
                <= newline_count(self.text()) + 1,
            match res {
                Ok(r) => r.start.0 == line_start(self.text(), start_line as int) && r.end.0
                    == line_start(self.text(), end_line as int),
                Err(e) => e == CoreError::OutOfBounds,
            },
    {
        let a = self.line_to_char(start_line)?;
        let b = self.line_to_char(end_line)?;
        Ok(CharIndexRange { start: a, end: b })
    }

    /// The character range from the start of line `start_line` to the end of
    /// line `end_line` (including its newline).
    pub fn line_range_to_full_char_index_range(&self, start_line: usize, end_line: usize) -> (res:
        Result<CharIndexRange, CoreError>)
        ensures
            res is Ok <==> start_line <= newline_count(self.text()) + 1 && end_line
                <= newline_count(self.text()),
            match res {
                Ok(r) => r.start.0 == line_start(self.text(), start_line as int) && r.end.0
                    == line_start(self.text(), end_line as int + 1),
                Err(e) => e == CoreError::OutOfBounds,
            },
    {
        let a = self.line_to_char(start_line)?;
        let raw = rope_len_lines(&self.rope);
        if end_line >= raw {
            return Err(CoreError::OutOfBounds);
        }
        let b = rope_line_to_char(&self.rope, end_line + 1);
        Ok(CharIndexRange { start: a, end: CharIndex(b) })
    }

    /// The line range spanned by a character range.
    pub fn char_index_range_to_line_range(&self, range: CharIndexRange) -> (res: Result<
        (usize, usize),
        CoreError,
    >)
        ensures
            res is Ok <==> range.start.0 <= self.text().len() && range.end.0 <= self.text().len(),
            match res {
                Ok(r) => r.0 == line_index_of(self.text(), range.start.0 as int) && r.1
                    == line_index_of(self.text(), range.end.0 as int),
                Err(e) => e == CoreError::OutOfBounds,
            },
    {
        let a = self.char_to_line(range.start)?;
        let b = self.char_to_line(range.end)?;
        Ok((a, b))
    }

    /// The character range of a position range (both ends clamped).
    pub fn position_range_to_char_index_range(&self, start: Position, end: Position) -> (res:
        Result<CharIndexRange, CoreError>)
        ensures
            res is Ok,
            match res {
                Ok(r) => r.start.0 == pos_to_char_spec(
                    self.text(),
                    start.line as int,
                    start.column as int,
                ) && r.end.0 == pos_to_char_spec(self.text(), end.line as int, end.column as int),
                Err(_) => false,
            },
    {
        let a = self.position_to_char(start)?;
        let b = self.position_to_char(end)?;
        Ok(CharIndexRange { start: a, end: b })
    }

    /// The position range of a character range.
    pub fn char_index_range_to_position_range(&self, range: CharIndexRange) -> (res: Result<
        (Position, Position),
        CoreError,
    >)
        ensures
            res is Ok <==> range.start.0 <= self.text().len() && range.end.0 <= self.text().len(),
            match res {
                Ok(r) => {
                    &&& r.0.line == line_index_of(self.text(), range.start.0 as int)
                    &&& r.0.column == range.start.0 - line_start(self.text(), r.0.line as int)
                    &&& r.1.line == line_index_of(self.text(), range.end.0 as int)
                    &&& r.1.column == range.end.0 - line_start(self.text(), r.1.line as int)
                },
                Err(e) => e == CoreError::OutOfBounds,
            },
    {
        let a = self.char_to_position(range.start)?;
        let b = self.char_to_position(range.end)?;
        Ok((a, b))
    }

    /// The byte range of a character range.
    pub fn char_index_range_to_byte_range(&self, range: CharIndexRange) -> (res: Result<
        (usize, usize),
        CoreError,
    >)
        ensures
            res is Ok <==> range.start.0 <= self.text().len() && range.end.0 <= self.text().len(),
            match res {
                Ok(r) => r.0 == byte_index_of(self.text(), range.start.0 as int) && r.1
                    == byte_index_of(self.text(), range.end.0 as int),
                Err(e) => e == CoreError::OutOfBounds,
            },
    {
        let a = self.char_to_byte(range.start)?;
        let b = self.char_to_byte(range.end)?;
        Ok((a, b))
    }

    /// The character range of a byte range.
    pub fn byte_range_to_char_index_range(&self, start_byte: usize, end_byte: usize) -> (res:
        Result<CharIndexRange, CoreError>)
        ensures
            ({
                let total = byte_index_of(self.text(), self.text().len() as int);
                &&& res is Ok <==> start_byte <= total && end_byte <= total
                &&& match res {
                    Ok(r) => r.start.0 == char_index_at_byte(self.text(), start_byte as int)
                        && r.end.0 == char_index_at_byte(self.text(), end_byte as int),
                    Err(e) => e == CoreError::OutOfBounds,
                }
            }),
    {
        let a = self.byte_to_char(start_byte)?;
        let b = self.byte_to_char(end_byte)?;
        Ok(CharIndexRange { start: a, end: b })
    }

    /// The byte range of a position range (both ends clamped).
    pub fn position_range_to_byte_range(&self, start: Position, end: Position) -> (res: Result<
        (usize, usize),
        CoreError,
    >)
        ensures
            res is Ok,
            match res {
                Ok(r) => r.0 == byte_index_of(
                    self.text(),
                    pos_to_char_spec(self.text(), start.line as int, start.column as int),
                ) && r.1 == byte_index_of(
                    self.text(),
                    pos_to_char_spec(self.text(), end.line as int, end.column as int),
                ),
                Err(_) => false,
            },
    {
        let a = self.position_to_byte(start)?;
        let b = self.position_to_byte(end)?;
        Ok((a, b))
    }

    /// The position of a byte offset.
    pub fn byte_to_position(&self, byte_index: usize) -> (res: Result<Position, CoreError>)
        ensures
            res is Ok <==> byte_index <= byte_index_of(self.text(), self.text().len() as int),
            match res {
                Ok(p) => {
                    let c = char_index_at_byte(self.text(), byte_index as int);
                    p.line == line_index_of(self.text(), c) && p.column == c - line_start(
                        self.text(),
                        line_index_of(self.text(), c),
                    )
                },
                Err(e) => e == CoreError::OutOfBounds,
            },
    {
        let c = self.byte_to_char(byte_index)?;
        proof {
            lemma_char_at_byte_bounds(self.text(), byte_index as int);
        }
        self.char_to_position(c)
    }

    /// The byte range of a line, excluding its newline terminator.
    pub fn line_to_byte_range(&self, line: usize) -> (res: Result<ByteRange, CoreError>)
        ensures
            res is Ok <==> line <= newline_count(self.text()),
            match res {
                Ok(r) => {
                    let s = byte_index_of(self.text(), line_start(self.text(), line as int));
                    let e = byte_index_of(self.text(), line_start(self.text(), line as int + 1));
                    r.start == s && r.end == if e > 0 {
                        e - 1
                    } else {
                        0
                    }
                },
                Err(e) => e == CoreError::OutOfBounds,
            },
    {
        let raw = rope_len_lines(&self.rope);
        if line >= raw {
            return Err(CoreError::OutOfBounds);
        }
        proof {
            lemma_newline_count_nonneg(self.text());
            lemma_line_start_bounds(self.text(), line as int);
            lemma_line_start_bounds(self.text(), line as int + 1);
        }
        let a = rope_line_to_char(&self.rope, line);
        let b = rope_line_to_char(&self.rope, line + 1);
        let sb = rope_char_to_byte(&self.rope, a);
        let eb = rope_char_to_byte(&self.rope, b);
        Ok(ByteRange { start: sb, end: if eb > 0 { eb - 1 } else { 0 } })
    }
}


/// A range remapped by an edit, or dropped: dropped when it was consumed by
/// the edit or when it did not lie inside the text the edit addressed.
pub open spec fn remap_range_opt(r: CharIndexRange, es: int, ee: int, nl: int, len: int) -> Option<
    CharIndexRange,
> {
    if !r.wf_in(len) {
        None
    } else {
        match crate::char_index_range::remap_spec(r.start.0 as int, r.end.0 as int, es, ee, nl) {
            Some((a, b)) => Some(
                CharIndexRange { start: CharIndex(a as usize), end: CharIndex(b as usize) },
            ),
            None => None,
        }
    }
}

/// All marks of a buffer remapped by one edit, consumed or stale marks
/// dropped, order kept.
pub open spec fn remap_marks_one(
    ms: Seq<CharIndexRange>,
    es: int,
    ee: int,
    nl: int,
    len: int,
) -> Seq<CharIndexRange>
    decreases ms.len(),
{
    if ms.len() == 0 {
        Seq::<CharIndexRange>::empty()
    } else {
        remap_marks_one(ms.drop_last(), es, ee, nl, len) + match remap_range_opt(
            ms.last(),
            es,
            ee,
            nl,
            len,
        ) {
            Some(r) => seq![r],
            None => Seq::<CharIndexRange>::empty(),
        }
    }
}

/// All diagnostics remapped by one edit; a diagnostic keeps its message.
pub open spec fn remap_diags_one(ds: Seq<DiagView>, es: int, ee: int, nl: int, len: int) -> Seq<
    DiagView,
>
    decreases ds.len(),
{
    if ds.len() == 0 {
        Seq::<DiagView>::empty()
    } else {
        remap_diags_one(ds.drop_last(), es, ee, nl, len) + ({
            let d = ds.last();
            match remap_range_opt(
                CharIndexRange { start: CharIndex(d.lo as usize), end: CharIndex(d.hi as usize) },
                es,
                ee,
                nl,
                len,
            ) {
                Some(r) => seq![
                    DiagView { lo: r.start.0 as int, hi: r.end.0 as int, message: d.message },
                ],
                None => Seq::<DiagView>::empty(),
            }
        })
    }
}

/// A quickfix item remapped by one edit: its position range is read against
/// the pre-edit text, remapped as a character range, and written back as a
/// position range against the post-edit text.
pub open spec fn remap_qf_item(
    q: QuickfixView,
    pre: Seq<char>,
    post: Seq<char>,
    es: int,
    ee: int,
    nl: int,
) -> Option<QuickfixView> {
    let a = pos_to_char_spec(pre, q.start_line, q.start_column);
    let b = pos_to_char_spec(pre, q.end_line, q.end_column);
    match remap_range_opt(
        CharIndexRange { start: CharIndex(a as usize), end: CharIndex(b as usize) },
        es,
        ee,
        nl,
        pre.len() as int,
    ) {
        Some(r) => {
            let sl = line_index_of(post, r.start.0 as int);
            let el = line_index_of(post, r.end.0 as int);
            Some(
                QuickfixView {
                    start_line: sl,
                    start_column: r.start.0 - line_start(post, sl),
                    end_line: el,
                    end_column: r.end.0 - line_start(post, el),
                    message: q.message,
                },
            )
        },
        None => None,
    }
}

pub open spec fn remap_qf_one(
    qs: Seq<QuickfixView>,
    pre: Seq<char>,
    post: Seq<char>,
    es: int,
    ee: int,
    nl: int,
) -> Seq<QuickfixView>
    decreases qs.len(),
{
    if qs.len() == 0 {
        Seq::<QuickfixView>::empty()
    } else {
        remap_qf_one(qs.drop_last(), pre, post, es, ee, nl) + match remap_qf_item(
            qs.last(),
            pre,
            post,
            es,
            ee,
            nl,
        ) {
            Some(q) => seq![q],
            None => Seq::<QuickfixView>::empty(),
        }
    }
}

/// End of the visible byte window for highlight re-justification: the end
/// byte of line `lvl` of the pre-edit text, 0 when that line does not exist.
pub open spec fn window_end_byte(s: Seq<char>, lvl: int) -> int {
    if lvl <= newline_count(s) {
        byte_index_of(s, line_start(s, lvl + 1))
    } else {
        0
    }
}

impl Buffer {
    /// The marks, as plain ranges.
    pub fn marks(&self) -> (res: Vec<CharIndexRange>)
        ensures
            res@ == self.marks_view(),
    {
        let mut res: Vec<CharIndexRange> = Vec::new();
        let mut i: usize = 0;
        let n = self.marks.len();
        while i < n
            invariant
                i <= n == self.marks@.len(),
                res@ =~= self.marks@.take(i as int),
            decreases n - i,
        {
            res.push(self.marks[i]);
            proof {
                assert(res@ =~= self.marks@.take(i + 1));
            }
            i = i + 1;
        }
        proof {
            assert(self.marks@.take(n as int) =~= self.marks@);
        }
        res
    }

    /// Toggle marks: ranges present in exactly one of the old and the new
    /// set survive, so marking a marked range unmarks it. The old marks that
    /// are not in `new_ranges` come first, in order, then the new ranges not
    /// previously marked, in order.
    pub fn save_marks(&mut self, new_ranges: Vec<CharIndexRange>)
        requires
            old(self).wf(),
        ensures
            final(self).wf(),
            final(self).text() == old(self).text(),
            forall|i: int|
                0 <= i < final(self).marks_view().len() ==> (old(self).marks_view().contains(
                    #[trigger] final(self).marks_view()[i],
                ) != new_ranges@.contains(final(self).marks_view()[i])),
            forall|r: CharIndexRange|
                ((#[trigger] old(self).marks_view().contains(r)) != new_ranges@.contains(r))
                    ==> final(self).marks_view().contains(r),
    {
        let mut res: Vec<CharIndexRange> = Vec::new();
        let mut i: usize = 0;
        let n = self.marks.len();
        while i < n
            invariant
                i <= n == self.marks@.len(),
                forall|k: int|
                    0 <= k < res@.len() ==> (old(self).marks_view().contains(#[trigger] res@[k])
                        != new_ranges@.contains(res@[k])),
                forall|k: int|
                    0 <= k < i && !new_ranges@.contains(#[trigger] self.marks@[k])
                        ==> res@.contains(self.marks@[k]),
                self.marks@ == old(self).marks@,
                old(self).marks@ == old(self).marks_view(),
            decreases n - i,
        {
            let m = self.marks[i];
            if !contains_range(&new_ranges, m) {
                proof {
                    assert(old(self).marks_view().contains(m));
                }
                let ghost pre = res@;
                res.push(m);
                proof {
                    assert(forall|k: int| 0 <= k < pre.len() ==> res@[k] == pre[k]);
                    assert(res@[pre.len() as int] == m);
                }
            }
            i = i + 1;
        }
        let mut j: usize = 0;
        let nn = new_ranges.len();
        while j < nn
            invariant
                j <= nn == new_ranges@.len(),
                forall|k: int|
                    0 <= k < res@.len() ==> (old(self).marks_view().contains(#[trigger] res@[k])
                        != new_ranges@.contains(res@[k])),
                forall|k: int|
                    0 <= k < n && !new_ranges@.contains(#[trigger] self.marks@[k])
                        ==> res@.contains(self.marks@[k]),
                forall|k: int|
                    0 <= k < j && !old(self).marks_view().contains(#[trigger] new_ranges@[k])
                        ==> res@.contains(new_ranges@[k]),
                n == self.marks@.len(),
                self.marks@ == old(self).marks@,
                old(self).marks@ == old(self).marks_view(),
            decreases nn - j,
        {
            let m = new_ranges[j];
            if !contains_range(&self.marks, m) {
                proof {
                    assert(new_ranges@.contains(m));
                }
                let ghost pre = res@;
                res.push(m);
                proof {
                    assert(forall|k: int| 0 <= k < pre.len() ==> res@[k] == pre[k]);
                    assert(res@[pre.len() as int] == m);
                }
            }
            j = j + 1;
        }
        proof {
            assert forall|r: CharIndexRange|
                ((#[trigger] old(self).marks_view().contains(r)) != new_ranges@.contains(r)) implies res@.contains(
                r,
            ) by {
                if old(self).marks_view().contains(r) {
                    let k = choose|k: int|
                        0 <= k < old(self).marks@.len() && old(self).marks@[k] == r;
                    assert(res@.contains(old(self).marks@[k]));
                } else {
                    let k = choose|k: int| 0 <= k < new_ranges@.len() && new_ranges@[k] == r;
                    assert(res@.contains(new_ranges@[k]));
                }
            }
        }
        self.marks = res;
    }

    pub fn clear_quickfix_list_items(&mut self)
        requires
            old(self).wf(),
        ensures
            final(self).wf(),
            final(self).quickfix_view().len() == 0,
            final(self).text() == old(self).text(),
    {
        self.quickfix_list_items = Vec::new();
        proof {
            assert(self.quickfix_view() =~= Seq::<QuickfixView>::empty());
        }
    }

    pub fn update_quickfix_list_items(&mut self, quickfix_list_items: Vec<QuickfixItem>)
        requires
            old(self).wf(),
        ensures
            final(self).wf(),
            final(self).quickfix_view() == qf_views(quickfix_list_items@),
            final(self).text() == old(self).text(),
    {
        self.quickfix_list_items = quickfix_list_items;
    }

    pub fn quickfix_list_items(&self) -> (res: Vec<QuickfixItem>)
        ensures
            qf_views(res@) == self.quickfix_view(),
    {
        let mut res: Vec<QuickfixItem> = Vec::new();
        let mut i: usize = 0;
        let n = self.quickfix_list_items.len();
        while i < n
            invariant
                i <= n == self.quickfix_list_items@.len(),
                qf_views(res@) =~= qf_views(self.quickfix_list_items@.take(i as int)),
            decreases n - i,
        {
            let q = &self.quickfix_list_items[i];
            let ghost pre = res@;
            res.push(
                QuickfixItem { start: q.start, end: q.end, message: q.message.clone() },
            );
            proof {
                assert(res@.len() == pre.len() + 1);
                assert(pre.len() == qf_views(pre).len());
                assert(res@[pre.len() as int].qv() == self.quickfix_list_items@[i as int].qv());
                assert forall|k: int| 0 <= k < res@.len() implies #[trigger] qf_views(res@)[k]
                    == qf_views(self.quickfix_list_items@.take(i + 1))[k] by {
                    if k < pre.len() {
                        assert(qf_views(pre)[k] == qf_views(
                            self.quickfix_list_items@.take(i as int),
                        )[k]);
                    }
                }
                assert(qf_views(res@) =~= qf_views(self.quickfix_list_items@.take(i + 1)));
            }
            i = i + 1;
        }
        proof {
            assert(self.quickfix_list_items@.take(n as int) =~= self.quickfix_list_items@);
        }
        res
    }

    /// Convert protocol diagnostics (position ranges) into the buffer's
    /// character-range diagnostics, clamping each position into the text.
    pub fn set_diagnostics(&mut self, records: Vec<DiagnosticRecord>)
        requires
            old(self).wf(),
        ensures
            final(self).wf(),
            final(self).text() == old(self).text(),
            final(self).diagnostics_view().len() == records@.len(),
            forall|i: int|
                0 <= i < records@.len() ==> {
                    let r = #[trigger] records@[i];
                    let d = final(self).diagnostics_view()[i];
                    &&& d.lo == pos_to_char_spec(
                        old(self).text(),
                        r.start.line as int,
                        r.start.column as int,
                    )
                    &&& d.hi == pos_to_char_spec(
                        old(self).text(),
                        r.end.line as int,
                        r.end.column as int,
                    )
                    &&& d.message == r.message@
                },
    {
        let mut res: Vec<Diagnostic> = Vec::new();
        let mut i: usize = 0;
        let n = records.len();
        while i < n
            invariant
                i <= n == records@.len(),
                self == old(self),
                res@.len() == i,
                forall|k: int|
                    0 <= k < i ==> {
                        let r = #[trigger] records@[k];
                        let d = res@[k].dv();
                        &&& d.lo == pos_to_char_spec(
                            old(self).text(),
                            r.start.line as int,
                            r.start.column as int,
                        )
                        &&& d.hi == pos_to_char_spec(
                            old(self).text(),
                            r.end.line as int,
                            r.end.column as int,
                        )
                        &&& d.message == r.message@
                    },
            decreases n - i,
        {
            let r = &records[i];
            let a = match self.position_to_char(r.start) {
                Ok(c) => c,
                Err(_) => CharIndex(0),
            };
            let b = match self.position_to_char(r.end) {
                Ok(c) => c,
                Err(_) => CharIndex(0),
            };
            res.push(
                Diagnostic {
                    range: CharIndexRange { start: a, end: b },
                    message: r.message.clone(),
                },
            );
            i = i + 1;
        }
        self.diagnostics = res;
        proof {
            assert forall|i: int|
                0 <= i < records@.len() implies (#[trigger] self.diagnostics_view()[i])
                == self.diagnostics@[i].dv() by {}
        }
    }

    /// The diagnostics, as plain values.
    pub fn diagnostics(&self) -> (res: Vec<Diagnostic>)
        ensures
            diag_views(res@) == self.diagnostics_view(),
    {
        let mut res: Vec<Diagnostic> = Vec::new();
        let mut i: usize = 0;
        let n = self.diagnostics.len();
        while i < n
            invariant
                i <= n == self.diagnostics@.len(),
                diag_views(res@) =~= diag_views(self.diagnostics@.take(i as int)),
            decreases n - i,
        {
            let d = &self.diagnostics[i];
            let ghost pre = res@;
            res.push(Diagnostic { range: d.range, message: d.message.clone() });
            proof {
                assert(res@.len() == pre.len() + 1);
                assert(pre.len() == diag_views(pre).len());
                assert(res@[pre.len() as int].dv() == self.diagnostics@[i as int].dv());
                assert forall|k: int| 0 <= k < res@.len() implies #[trigger] diag_views(res@)[k]
                    == diag_views(self.diagnostics@.take(i + 1))[k] by {
                    if k < pre.len() {
                        assert(diag_views(pre)[k] == diag_views(self.diagnostics@.take(i as int))[k]);
                    }
                }
                assert(diag_views(res@) =~= diag_views(self.diagnostics@.take(i + 1)));
            }
            i = i + 1;
        }
        proof {
            assert(self.diagnostics@.take(n as int) =~= self.diagnostics@);
        }
        res
    }

    /// The spans attached to the buffer, sorted by their producer.
    pub fn highlighted_spans(&self) -> (res: &Vec<HighlightedSpan>)
        ensures
            res@ == self.highlighted_spans_view(),
    {
        &self.highlighted_spans.0
    }

    pub fn batch_id(&self) -> (res: SyntaxHighlightRequestBatchId)
        ensures
            res.0 == self.batch_id_spec(),
    {
        self.batch_id
    }

    /// Accept an asynchronous highlight result only when it was computed for
    /// the buffer's current epoch: a result bearing any other batch id never
    /// alters the spans.
    pub fn update_highlighted_spans(
        &mut self,
        batch_id: SyntaxHighlightRequestBatchId,
        spans: HighlightedSpans,
    )
        requires
            old(self).wf(),
        ensures
            final(self).wf(),
            final(self).text() == old(self).text(),
            batch_id.0 == old(self).batch_id_spec() ==> final(self).highlighted_spans_view()
                == spans.0@,
            batch_id.0 != old(self).batch_id_spec() ==> final(self).highlighted_spans_view() == old(self).highlighted_spans_view(),
            final(self).batch_id_spec() == old(self).batch_id_spec(),
            final(self).marks_view() == old(self).marks_view(),
            final(self).diagnostics_view() == old(self).diagnostics_view(),
            final(self).quickfix_view() == old(self).quickfix_view(),
            final(self).dirty_spec() == old(self).dirty_spec(),
            final(self).owner_spec() == old(self).owner_spec(),
            final(self).tree_view() == old(self).tree_view(),
            final(self).path_view() == old(self).path_view(),
            final(self).undo_tx_views() == old(self).undo_tx_views(),
            final(self).redo_tx_views() == old(self).redo_tx_views(),
            final(self).sel_history_sets() == old(self).sel_history_sets(),
            final(self).sel_history_cursor() == old(self).sel_history_cursor(),
    {
        if batch_id.0 == self.batch_id.0 {
            self.highlighted_spans = spans;
        }
    }

    pub fn tree(&self) -> (res: Option<&SyntaxTree>)
        requires
            self.wf(),
        ensures
            res is Some <==> self.tree_view() is Some,
            match res {
                Some(t) => Some(t.nodes@) == self.tree_view() && t.wf(),
                None => true,
            },
    {
        self.tree.as_ref()
    }

    pub fn treesitter_language(&self) -> (res: Option<&tree_sitter::Language>)
    {
        self.treesitter_language.as_ref()
    }

    /// Record the current selection set as the newest point of the
    /// navigation history, discarding anything that had been undone.
    pub fn push_selection_set_history(&mut self, selection_set: SelectionSet)
        requires
            old(self).wf(),
        ensures
            final(self).wf(),
            final(self).text() == old(self).text(),
            final(self).sel_history_sets() == old(self).sel_history_sets().take(
                old(self).sel_history_cursor(),
            ).push(selection_set.ranges()),
            final(self).sel_history_cursor() == old(self).sel_history_cursor() + 1,
            final(self).marks_view() == old(self).marks_view(),
            final(self).undo_entries() == old(self).undo_entries(),
            final(self).redo_entries() == old(self).redo_entries(),
    {
        let ghost pre = *self;
        self.selection_set_history.push(selection_set);
        proof {
            assert(self.sel_history_sets() =~= pre.sel_history_sets().take(
                pre.sel_history_cursor(),
            ).push(selection_set.ranges())) by {
                assert forall|k: int|
                    0 <= k < self.selection_set_history.items@.len() implies #[trigger] self.sel_history_sets()[k]
                    == pre.sel_history_sets().take(pre.sel_history_cursor()).push(
                    selection_set.ranges(),
                )[k] by {
                    assert(self.sel_history_sets()[k]
                        == self.selection_set_history.items@[k].ranges());
                    if k < pre.sel_history_cursor() {
                        assert(pre.sel_history_sets()[k]
                            == pre.selection_set_history.items@[k].ranges());
                    }
                }
            }
        }
    }

    /// Step the navigation history back: returns the set before the active
    /// one, or `None` at the start. Text edits never clear this history.
    pub fn previous_selection_set(&mut self) -> (res: Option<SelectionSet>)
        requires
            old(self).wf(),
        ensures
            final(self).wf(),
            final(self).text() == old(self).text(),
            final(self).sel_history_sets() == old(self).sel_history_sets(),
            res is Some <==> old(self).sel_history_cursor() >= 2,
            match res {
                Some(set) => {
                    &&& final(self).sel_history_cursor() == old(self).sel_history_cursor() - 1
                    &&& set.ranges() == old(self).sel_history_sets()[old(self).sel_history_cursor()
                        - 2]
                },
                None => final(self).sel_history_cursor() == old(self).sel_history_cursor(),
            },
    {
        let ghost pre = *self;
        let res = self.selection_set_history.previous();
        proof {
            assert(self.sel_history_sets() =~= pre.sel_history_sets());
            if pre.selection_set_history.current >= 2 {
                assert(pre.sel_history_sets()[pre.sel_history_cursor() - 2]
                    == pre.selection_set_history.items@[pre.sel_history_cursor() - 2].ranges());
            }
        }
        res
    }

    /// Step the navigation history forward, or `None` at the newest point.
    pub fn next_selection_set(&mut self) -> (res: Option<SelectionSet>)
        requires
            old(self).wf(),
        ensures
            final(self).wf(),
            final(self).text() == old(self).text(),
            final(self).sel_history_sets() == old(self).sel_history_sets(),
            res is Some <==> old(self).sel_history_cursor() < old(self).sel_history_sets().len(),
            match res {
                Some(set) => {
                    &&& final(self).sel_history_cursor() == old(self).sel_history_cursor() + 1
                    &&& set.ranges() == old(self).sel_history_sets()[old(self).sel_history_cursor()]
                },
                None => final(self).sel_history_cursor() == old(self).sel_history_cursor(),
            },
    {
        let ghost pre = *self;
        let res = self.selection_set_history.next();
        proof {
            assert(self.sel_history_sets() =~= pre.sel_history_sets());
            if pre.selection_set_history.current < pre.selection_set_history.items@.len() {
                assert(pre.sel_history_sets()[pre.sel_history_cursor()]
                    == pre.selection_set_history.items@[pre.sel_history_cursor()].ranges());
            }
        }
        res
    }
}


impl Buffer {
    /// Apply one edit (whose range addresses the current text) to the text
    /// and every satellite: highlight spans are byte-shifted within the
    /// visible window, quickfix items are carried over as character ranges
    /// and re-expressed as positions afterwards, marks and diagnostics are
    /// remapped or dropped, the selection history is remapped with clamping.
    /// The tree, the histories' shapes, the batch id and the path are
    /// untouched.
    fn apply_edit(&mut self, edit: &crate::edit::Edit, last_visible_line: u16)
        requires
            old(self).wf(),
            edit.ev().wf(),
            edit.ev().hi <= old(self).text().len(),
        ensures
            final(self).wf(),
            final(self).text() == crate::edit::splice(old(self).text(), edit.ev()),
            final(self).marks_view() == remap_marks_one(
                old(self).marks_view(),
                edit.ev().lo,
                edit.ev().hi,
                edit.ev().ins.len() as int,
                old(self).text().len() as int,
            ),
            final(self).diagnostics_view() == remap_diags_one(
                old(self).diagnostics_view(),
                edit.ev().lo,
                edit.ev().hi,
                edit.ev().ins.len() as int,
                old(self).text().len() as int,
            ),
            final(self).quickfix_view() == remap_qf_one(
                old(self).quickfix_view(),
                old(self).text(),
                final(self).text(),
                edit.ev().lo,
                edit.ev().hi,
                edit.ev().ins.len() as int,
            ),
            final(self).highlighted_spans_view() == crate::syntax_highlight::shift_spans(
                old(self).highlighted_spans_view(),
                byte_index_of(old(self).text(), edit.ev().lo),
                byte_index_of(old(self).text(), edit.ev().hi),
                crate::text_model::size_of_chars(edit.ev().ins),
                window_end_byte(old(self).text(), last_visible_line as int),
            ),
            final(self).dirty_spec(),
            final(self).owner_spec() == BufferOwner::User,
            final(self).batch_id_spec() == old(self).batch_id_spec(),
            final(self).tree_view() == old(self).tree_view(),
            final(self).path_view() == old(self).path_view(),
            final(self).undo_count() == old(self).undo_count(),
            final(self).redo_count() == old(self).redo_count(),
            final(self).undo_tx_views() == old(self).undo_tx_views(),
            final(self).redo_tx_views() == old(self).redo_tx_views(),
            final(self).undo_entries() == old(self).undo_entries(),
            final(self).redo_entries() == old(self).redo_entries(),
            final(self).sel_history_sets() == crate::selection::remap_sel_views(
                old(self).sel_history_sets(),
                edit.ev().lo,
                edit.ev().hi,
                edit.ev().ins.len() as int,
                old(self).text().len() as int,
            ),
            final(self).sel_history_cursor() == old(self).sel_history_cursor(),
    {
        let ghost pre_text = self.text();
        let lo = edit.range.start.0;
        let hi = edit.range.end.0;
        let old_len = rope_len(&self.rope);

        // byte coordinates of the edit and of the visible window, against the
        // pre-edit text
        let byte_start = rope_char_to_byte(&self.rope, lo);
        let byte_end = rope_char_to_byte(&self.rope, hi);
        proof {
            lemma_byte_index_monotone(pre_text, lo as int, hi as int);
        }
        let raw_lines = rope_len_lines(&self.rope);
        let lvl = last_visible_line as usize;
        let window_end: usize = if lvl < raw_lines {
            proof {
                lemma_newline_count_nonneg(pre_text);
                lemma_line_start_bounds(pre_text, lvl as int + 1);
            }
            let nc = rope_line_to_char(&self.rope, lvl + 1);
            rope_char_to_byte(&self.rope, nc)
        } else {
            0
        };

        // quickfix positions are only meaningful against the pre-edit text:
        // read them now as character ranges
        let mut qf_ranges: Vec<(CharIndexRange, QuickfixItem)> = Vec::new();
        let qn = self.quickfix_list_items.len();
        let mut qi: usize = 0;
        while qi < qn
            invariant
                qi <= qn == self.quickfix_list_items@.len(),
                self == old(self),
                pre_text == self.text(),
                qf_ranges@.len() == qi,
                forall|k: int|
                    0 <= k < qi ==> {
                        let q = #[trigger] qf_ranges@[k];
                        let v = old(self).quickfix_view()[k];
                        &&& q.1.qv() == v
                        &&& q.0.start.0 == pos_to_char_spec(pre_text, v.start_line, v.start_column)
                        &&& q.0.end.0 == pos_to_char_spec(pre_text, v.end_line, v.end_column)
                    },
            decreases qn - qi,
        {
            let q = &self.quickfix_list_items[qi];
            proof {
                assert(old(self).quickfix_view()[qi as int]
                    == self.quickfix_list_items@[qi as int].qv());
            }
            let a = match self.position_to_char(q.start) {
                Ok(c) => c,
                Err(_) => CharIndex(0),
            };
            let b = match self.position_to_char(q.end) {
                Ok(c) => c,
                Err(_) => CharIndex(0),
            };
            let item_copy = QuickfixItem { start: q.start, end: q.end, message: q.message.clone() };
            proof {
                assert(item_copy.qv() == old(self).quickfix_view()[qi as int]);
            }
            qf_ranges.push((CharIndexRange { start: a, end: b }, item_copy));
            proof {
                let v = old(self).quickfix_view()[qi as int];
                assert(qf_ranges@[qi as int].1.qv() == v);
                assert(qf_ranges@[qi as int].0.start.0 == pos_to_char_spec(
                    pre_text,
                    v.start_line,
                    v.start_column,
                ));
                assert(qf_ranges@[qi as int].0.end.0 == pos_to_char_spec(
                    pre_text,
                    v.end_line,
                    v.end_column,
                ));
            }
            qi = qi + 1;
        }

        // the text change itself
        rope_remove(&mut self.rope, lo, hi);
        rope_insert(&mut self.rope, lo, edit.new.as_str());
        proof {
            assert(self.text() =~= crate::edit::splice(pre_text, edit.ev())) by {
                assert(rope_chars(self.rope) =~= pre_text.take(lo as int) + edit.new@
                    + pre_text.skip(hi as int));
            }
        }
        self.dirty = true;
        self.owner = BufferOwner::User;
        let new_len = rope_len(&self.rope);
        let ins_len = new_len - (old_len - (hi - lo));
        proof {
            crate::text_model::lemma_size_append(
                pre_text.take(lo as int) + edit.ev().ins,
                pre_text.skip(hi as int),
            );
            crate::text_model::lemma_size_append(pre_text.take(lo as int), edit.ev().ins);
        }

        // highlight spans: shift the visible byte window by the byte delta
        proof {
            lemma_byte_index_monotone(self.text(), lo as int, lo + ins_len);
        }
        let new_byte_of_ins_end = rope_char_to_byte(&self.rope, lo + ins_len);
        let new_byte_of_ins_start = rope_char_to_byte(&self.rope, lo);
        let new_bytes = new_byte_of_ins_end - new_byte_of_ins_start;
        proof {
            let post = self.text();
            assert(post.take(lo as int) =~= pre_text.take(lo as int));
            assert(post.take(lo + ins_len) =~= pre_text.take(lo as int) + edit.ev().ins);
            assert(byte_index_of(post, lo as int) == byte_index_of(pre_text, lo as int));
            assert(new_bytes == crate::text_model::size_of_chars(edit.ev().ins));
        }
        self.highlighted_spans.apply_edit_shift(byte_start, byte_end, new_bytes, window_end);

        // marks and diagnostics: remap, dropping consumed or stale ranges
        let ghost post_text = self.text();
        let mut new_marks: Vec<CharIndexRange> = Vec::new();
        let mn = self.marks.len();
        let mut mi: usize = 0;
        while mi < mn
            invariant
                mi <= mn == self.marks@.len(),
                self.marks@ == old(self).marks@,
                lo == edit.ev().lo,
                hi == edit.ev().hi,
                ins_len == edit.ev().ins.len(),
                lo <= hi <= old_len == pre_text.len(),
                old_len - (hi - lo) + ins_len <= usize::MAX,
                new_marks@ =~= remap_marks_one(
                    self.marks@.take(mi as int),
                    lo as int,
                    hi as int,
                    ins_len as int,
                    old_len as int,
                ),
            decreases mn - mi,
        {
            let m = self.marks[mi];
            if m.start.0 <= m.end.0 && m.end.0 <= old_len {
                match m.apply_edit_shift(lo, hi, ins_len, old_len) {
                    Some(r) => {
                        new_marks.push(r);
                    },
                    None => {},
                }
            }
            proof {
                assert(self.marks@.take(mi + 1).drop_last() =~= self.marks@.take(mi as int));
                assert(self.marks@.take(mi + 1).last() == self.marks@[mi as int]);
                assert(new_marks@ =~= remap_marks_one(
                    self.marks@.take(mi + 1),
                    lo as int,
                    hi as int,
                    ins_len as int,
                    old_len as int,
                ));
            }
            mi = mi + 1;
        }
        proof {
            assert(self.marks@.take(mn as int) =~= self.marks@);
        }
        self.marks = new_marks;

        let mut new_diags: Vec<Diagnostic> = Vec::new();
        let dn = self.diagnostics.len();
        let mut di: usize = 0;
        while di < dn
            invariant
                di <= dn == self.diagnostics@.len(),
                self.diagnostics@ == old(self).diagnostics@,
                lo == edit.ev().lo,
                hi == edit.ev().hi,
                ins_len == edit.ev().ins.len(),
                lo <= hi <= old_len == pre_text.len(),
                old_len - (hi - lo) + ins_len <= usize::MAX,
                diag_views(new_diags@) =~= remap_diags_one(
                    diag_views(self.diagnostics@.take(di as int)),
                    lo as int,
                    hi as int,
                    ins_len as int,
                    old_len as int,
                ),
            decreases dn - di,
        {
            let d = &self.diagnostics[di];
            let ghost pre_nd = new_diags@;
            if d.range.start.0 <= d.range.end.0 && d.range.end.0 <= old_len {
                match d.range.apply_edit_shift(lo, hi, ins_len, old_len) {
                    Some(r) => {
                        new_diags.push(Diagnostic { range: r, message: d.message.clone() });
                    },
                    None => {},
                }
            }
            proof {
                let dvs = diag_views(self.diagnostics@);
                assert(diag_views(self.diagnostics@.take(di + 1)).drop_last() =~= diag_views(
                    self.diagnostics@.take(di as int),
                ));
                assert(diag_views(self.diagnostics@.take(di + 1)).last()
                    == self.diagnostics@[di as int].dv());
                if new_diags@.len() > pre_nd.len() {
                    assert(diag_views(new_diags@).drop_last() =~= diag_views(pre_nd));
                }
                assert(diag_views(new_diags@) =~= remap_diags_one(
                    diag_views(self.diagnostics@.take(di + 1)),
                    lo as int,
                    hi as int,
                    ins_len as int,
                    old_len as int,
                ));
            }
            di = di + 1;
        }
        proof {
            assert(self.diagnostics@.take(dn as int) =~= self.diagnostics@);
        }
        self.diagnostics = new_diags;

        // quickfix items: remap the pre-computed character ranges, then
        // express them as positions against the post-edit text
        let mut new_qf: Vec<QuickfixItem> = Vec::new();
        let mut qj: usize = 0;
        while qj < qn
            invariant
                qj <= qn == qf_ranges@.len(),
                self.text() == post_text,
                post_text == crate::edit::splice(pre_text, edit.ev()),
                lo == edit.ev().lo,
                hi == edit.ev().hi,
                ins_len == edit.ev().ins.len(),
                lo <= hi <= old_len == pre_text.len(),
                old_len - (hi - lo) + ins_len <= usize::MAX,
                forall|k: int|
                    0 <= k < qn ==> {
                        let q = #[trigger] qf_ranges@[k];
                        let v = old(self).quickfix_view()[k];
                        &&& q.1.qv() == v
                        &&& q.0.start.0 == pos_to_char_spec(pre_text, v.start_line, v.start_column)
                        &&& q.0.end.0 == pos_to_char_spec(pre_text, v.end_line, v.end_column)
                    },
                qn == old(self).quickfix_view().len(),
                qf_views(new_qf@) =~= remap_qf_one(
                    old(self).quickfix_view().take(qj as int),
                    pre_text,
                    post_text,
                    lo as int,
                    hi as int,
                    ins_len as int,
                ),
            decreases qn - qj,
        {
            let (r, item) = &qf_ranges[qj];
            let ghost pre_nq = new_qf@;
            proof {
                lemma_pos_to_char_in_bounds(
                    pre_text,
                    old(self).quickfix_view()[qj as int].start_line,
                    old(self).quickfix_view()[qj as int].start_column,
                );
                lemma_pos_to_char_in_bounds(
                    pre_text,
                    old(self).quickfix_view()[qj as int].end_line,
                    old(self).quickfix_view()[qj as int].end_column,
                );
            }
            if r.start.0 <= r.end.0 && r.end.0 <= old_len {
                match r.apply_edit_shift(lo, hi, ins_len, old_len) {
                    Some(nr) => {
                        let sp = match self.char_to_position(nr.start) {
                            Ok(p) => p,
                            Err(_) => Position { line: 0, column: 0 },
                        };
                        let ep = match self.char_to_position(nr.end) {
                            Ok(p) => p,
                            Err(_) => Position { line: 0, column: 0 },
                        };
                        new_qf.push(
                            QuickfixItem { start: sp, end: ep, message: item.message.clone() },
                        );
                    },
                    None => {},
                }
            }
            proof {
                let qvs = old(self).quickfix_view();
                assert(qvs.take(qj + 1).drop_last() =~= qvs.take(qj as int));
                assert(qvs.take(qj + 1).last() == qvs[qj as int]);
                if new_qf@.len() > pre_nq.len() {
                    assert(qf_views(new_qf@).drop_last() =~= qf_views(pre_nq));
                }
                assert(qf_views(new_qf@) =~= remap_qf_one(
                    qvs.take(qj + 1),
                    pre_text,
                    post_text,
                    lo as int,
                    hi as int,
                    ins_len as int,
                ));
            }
            qj = qj + 1;
        }
        proof {
            assert(old(self).quickfix_view().take(qn as int) =~= old(self).quickfix_view());
        }
        self.quickfix_list_items = new_qf;

        // the navigation history is remapped, never cleared
        let ghost pre_hist = self.selection_set_history.items@;
        self.selection_set_history.apply_edit_remap(lo, hi, ins_len, old_len);
        proof {
            assert(crate::selection::sel_views(self.selection_set_history.items@)
                == crate::selection::remap_sel_views(
                crate::selection::sel_views(pre_hist),
                lo as int,
                hi as int,
                ins_len as int,
                old_len as int,
            ));
            assert(pre_hist == old(self).selection_set_history.items@);
            assert(ins_len == edit.ev().ins.len());
            assert(old_len == old(self).text().len());
            assert(lo == edit.ev().lo && hi == edit.ev().hi);
            assert(crate::selection::sel_views(self.selection_set_history.items@)
                == crate::selection::remap_sel_views(
                crate::selection::sel_views(old(self).selection_set_history.items@),
                lo as int,
                hi as int,
                ins_len as int,
                old_len as int,
            ));
        }
    }
}


/// Marks after a whole transaction: the edits are applied from the last to
/// the first, each remapping every surviving mark.
pub open spec fn fold_marks(
    ms: Seq<CharIndexRange>,
    text: Seq<char>,
    evs: Seq<crate::edit::EditView>,
) -> Seq<CharIndexRange>
    decreases evs.len(),
{
    if evs.len() == 0 {
        ms
    } else {
        let e = evs.last();
        fold_marks(
            remap_marks_one(ms, e.lo, e.hi, e.ins.len() as int, text.len() as int),
            crate::edit::splice(text, e),
            evs.drop_last(),
        )
    }
}

pub open spec fn fold_diags(
    ds: Seq<DiagView>,
    text: Seq<char>,
    evs: Seq<crate::edit::EditView>,
) -> Seq<DiagView>
    decreases evs.len(),
{
    if evs.len() == 0 {
        ds
    } else {
        let e = evs.last();
        fold_diags(
            remap_diags_one(ds, e.lo, e.hi, e.ins.len() as int, text.len() as int),
            crate::edit::splice(text, e),
            evs.drop_last(),
        )
    }
}

pub open spec fn fold_qf(
    qs: Seq<QuickfixView>,
    text: Seq<char>,
    evs: Seq<crate::edit::EditView>,
) -> Seq<QuickfixView>
    decreases evs.len(),
{
    if evs.len() == 0 {
        qs
    } else {
        let e = evs.last();
        fold_qf(
            remap_qf_one(
                qs,
                text,
                crate::edit::splice(text, e),
                e.lo,
                e.hi,
                e.ins.len() as int,
            ),
            crate::edit::splice(text, e),
            evs.drop_last(),
        )
    }
}

pub open spec fn fold_spans(
    sp: Seq<HighlightedSpan>,
    text: Seq<char>,
    evs: Seq<crate::edit::EditView>,
    lvl: int,
) -> Seq<HighlightedSpan>
    decreases evs.len(),
{
    if evs.len() == 0 {
        sp
    } else {
        let e = evs.last();
        fold_spans(
            crate::syntax_highlight::shift_spans(
                sp,
                byte_index_of(text, e.lo),
                byte_index_of(text, e.hi),
                crate::text_model::size_of_chars(e.ins),
                window_end_byte(text, lvl),
            ),
            crate::edit::splice(text, e),
            evs.drop_last(),
            lvl,
        )
    }
}

/// The stored navigation history after a whole transaction: each edit, from
/// the last to the first, remaps every stored selection set.
pub open spec fn fold_sels(
    ss: Seq<Seq<(int, int)>>,
    text: Seq<char>,
    evs: Seq<crate::edit::EditView>,
) -> Seq<Seq<(int, int)>>
    decreases evs.len(),
{
    if evs.len() == 0 {
        ss
    } else {
        let e = evs.last();
        fold_sels(
            crate::selection::remap_sel_views(
                ss,
                e.lo,
                e.hi,
                e.ins.len() as int,
                text.len() as int,
            ),
            crate::edit::splice(text, e),
            evs.drop_last(),
        )
    }
}

/// The mathematical content of a [`crate::position::ProtocolDiffEdit`].
pub ghost struct ProtocolEditView {
    pub start_line: u32,
    pub start_character: u32,
    pub end_line: u32,
    pub end_character: u32,
    pub text: Seq<char>,
}

pub open spec fn pd_view(e: crate::position::ProtocolDiffEdit) -> ProtocolEditView {
    ProtocolEditView {
        start_line: e.start.line,
        start_character: e.start.character,
        end_line: e.end.line,
        end_character: e.end.character,
        text: e.new_text@,
    }
}

/// The protocol-level description of one edit against a given snapshot.
pub open spec fn protocol_edit_of(text: Seq<char>, ev: crate::edit::EditView) -> ProtocolEditView {
    ProtocolEditView {
        start_line: line_index_of(text, ev.lo) as u32,
        start_character: (ev.lo - line_start(text, line_index_of(text, ev.lo))) as u32,
        end_line: line_index_of(text, ev.hi) as u32,
        end_character: (ev.hi - line_start(text, line_index_of(text, ev.hi))) as u32,
        text: ev.ins,
    }
}

pub open spec fn pd_views(s: Seq<crate::position::ProtocolDiffEdit>) -> Seq<ProtocolEditView> {
    s.map_values(|e: crate::position::ProtocolDiffEdit| pd_view(e))
}

/// The protocol-level description of a whole batch against one snapshot.
pub open spec fn protocol_views_spec(
    text: Seq<char>,
    evs: Seq<crate::edit::EditView>,
) -> Seq<ProtocolEditView> {
    evs.map_values(|e: crate::edit::EditView| protocol_edit_of(text, e))
}

/// The mathematical content of an [`EditHistory`] entry: the stored (inverse)
/// transaction, the selection sets and marks captured before and after the
/// recorded transaction, and both directions of the protocol diff.
pub ghost struct HistView {
    pub tx: Seq<crate::edit::EditView>,
    pub old_sel: Seq<(int, int)>,
    pub new_sel: Seq<(int, int)>,
    pub old_marks: Seq<CharIndexRange>,
    pub new_marks: Seq<CharIndexRange>,
    pub stored_edits: Seq<ProtocolEditView>,
    pub inverted_edits: Seq<ProtocolEditView>,
}

/// Every observable piece of the buffer except the syntax tree is the same
/// in `a` and `b`.
pub open spec fn unchanged_but_tree(a: Buffer, b: Buffer) -> bool {
    &&& b.text() == a.text()
    &&& b.marks_view() == a.marks_view()
    &&& b.diagnostics_view() == a.diagnostics_view()
    &&& b.quickfix_view() == a.quickfix_view()
    &&& b.highlighted_spans_view() == a.highlighted_spans_view()
    &&& b.dirty_spec() == a.dirty_spec()
    &&& b.owner_spec() == a.owner_spec()
    &&& b.batch_id_spec() == a.batch_id_spec()
    &&& b.path_view() == a.path_view()
    &&& b.undo_tx_views() == a.undo_tx_views()
    &&& b.redo_tx_views() == a.redo_tx_views()
    &&& b.undo_entries() == a.undo_entries()
    &&& b.redo_entries() == a.redo_entries()
    &&& b.sel_history_sets() == a.sel_history_sets()
    &&& b.sel_history_cursor() == a.sel_history_cursor()
}

pub open spec fn hist_view(h: EditHistory) -> HistView {
    HistView {
        tx: crate::edit::groups_views(h.edit_transaction.action_groups@),
        old_sel: h.old_state.selection_set.ranges(),
        new_sel: h.new_state.selection_set.ranges(),
        old_marks: h.old_state.marks@,
        new_marks: h.new_state.marks@,
        stored_edits: pd_views(h.unnormalized_edits@),
        inverted_edits: pd_views(h.inverted_unnormalized_edits@),
    }
}

impl Buffer {
    pub closed spec fn undo_entries(self) -> Seq<HistView> {
        self.undo_stack@.map_values(|h: EditHistory| hist_view(h))
    }

    pub closed spec fn redo_entries(self) -> Seq<HistView> {
        self.redo_stack@.map_values(|h: EditHistory| hist_view(h))
    }

    /// The stored navigation history: each set's selection ranges, in stack
    /// order.
    pub closed spec fn sel_history_sets(self) -> Seq<Seq<(int, int)>> {
        crate::selection::sel_views(self.selection_set_history.items@)
    }

    /// The navigation history's cursor: the number of sets at or before the
    /// active one.
    pub closed spec fn sel_history_cursor(self) -> int {
        self.selection_set_history.current as int
    }

    pub closed spec fn undo_tx_views(self) -> Seq<Seq<crate::edit::EditView>> {
        self.undo_stack@.map_values(
            |h: EditHistory| crate::edit::groups_views(h.edit_transaction.action_groups@),
        )
    }

    pub closed spec fn redo_tx_views(self) -> Seq<Seq<crate::edit::EditView>> {
        self.redo_stack@.map_values(
            |h: EditHistory| crate::edit::groups_views(h.edit_transaction.action_groups@),
        )
    }

    /// The protocol-level diff edits of a batch, with positions read against
    /// the current text.
    fn protocol_edits_of(&self, edits: &Vec<crate::edit::Edit>) -> (res: Vec<
        crate::position::ProtocolDiffEdit,
    >)
        requires
            forall|i: int|
                0 <= i < edits@.len() ==> (#[trigger] edits@[i].ev()).wf() && edits@[i].ev().hi
                    <= self.text().len(),
        ensures
            res@.len() == edits@.len(),
            forall|i: int|
                0 <= i < edits@.len() ==> pd_view(#[trigger] res@[i]) == protocol_edit_of(
                    self.text(),
                    edits@[i].ev(),
                ),
    {
        let mut res: Vec<crate::position::ProtocolDiffEdit> = Vec::new();
        let mut i: usize = 0;
        let n = edits.len();
        while i < n
            invariant
                i <= n == edits@.len(),
                forall|k: int|
                    0 <= k < n ==> (#[trigger] edits@[k].ev()).wf() && edits@[k].ev().hi
                        <= self.text().len(),
                res@.len() == i,
                forall|k: int|
                    0 <= k < i ==> pd_view(#[trigger] res@[k]) == protocol_edit_of(
                        self.text(),
                        edits@[k].ev(),
                    ),
            decreases n - i,
        {
            let e = &edits[i];
            let sp = match self.char_to_vscode_position(e.range.start) {
                Ok(p) => p,
                Err(_) => ProtocolPosition { line: 0, character: 0 },
            };
            let ep = match self.char_to_vscode_position(e.range.end) {
                Ok(p) => p,
                Err(_) => ProtocolPosition { line: 0, character: 0 },
            };
            res.push(
                crate::position::ProtocolDiffEdit { start: sp, end: ep, new_text: e.new.clone() },
            );
            i = i + 1;
        }
        res
    }

    /// An explicit copy of protocol diff edits.
    fn copy_protocol_edits(edits: &Vec<crate::position::ProtocolDiffEdit>) -> (res: Vec<
        crate::position::ProtocolDiffEdit,
    >)
        ensures
            res@.len() == edits@.len(),
            forall|i: int|
                0 <= i < edits@.len() ==> pd_view(#[trigger] res@[i]) == pd_view(edits@[i]),
    {
        let mut res: Vec<crate::position::ProtocolDiffEdit> = Vec::new();
        let mut i: usize = 0;
        let n = edits.len();
        while i < n
            invariant
                i <= n == edits@.len(),
                res@.len() == i,
                forall|k: int|
                    0 <= k < i ==> pd_view(#[trigger] res@[k]) == pd_view(edits@[k]),
            decreases n - i,
        {
            let e = &edits[i];
            res.push(
                crate::position::ProtocolDiffEdit {
                    start: e.start,
                    end: e.end,
                    new_text: e.new_text.clone(),
                },
            );
            i = i + 1;
        }
        res
    }

    /// Apply a validated batch: the text becomes `apply_edits` of the batch,
    /// and every satellite is remapped edit by edit, from the last edit to
    /// the first, exactly as the fold specifications say.
    #[verifier::rlimit(100)]
    fn apply_validated_edits(&mut self, edits: &Vec<crate::edit::Edit>, last_visible_line: u16)
        requires
            old(self).wf(),
            crate::edit::tx_valid(
                crate::edit::views_of(edits@),
                old(self).text().len() as int,
            ),
        ensures
            final(self).wf(),
            final(self).text() == crate::edit::apply_edits(
                old(self).text(),
                crate::edit::views_of(edits@),
            ),
            final(self).marks_view() == fold_marks(
                old(self).marks_view(),
                old(self).text(),
                crate::edit::views_of(edits@),
            ),
            final(self).diagnostics_view() == fold_diags(
                old(self).diagnostics_view(),
                old(self).text(),
                crate::edit::views_of(edits@),
            ),
            final(self).quickfix_view() == fold_qf(
                old(self).quickfix_view(),
                old(self).text(),
                crate::edit::views_of(edits@),
            ),
            final(self).highlighted_spans_view() == fold_spans(
                old(self).highlighted_spans_view(),
                old(self).text(),
                crate::edit::views_of(edits@),
                last_visible_line as int,
            ),
            final(self).dirty_spec() == (old(self).dirty_spec() || edits@.len() > 0),
            final(self).owner_spec() == if edits@.len() > 0 {
                BufferOwner::User
            } else {
                old(self).owner_spec()
            },
            final(self).batch_id_spec() == old(self).batch_id_spec(),
            final(self).tree_view() == old(self).tree_view(),
            final(self).path_view() == old(self).path_view(),
            final(self).undo_count() == old(self).undo_count(),
            final(self).redo_count() == old(self).redo_count(),
            final(self).undo_tx_views() == old(self).undo_tx_views(),
            final(self).redo_tx_views() == old(self).redo_tx_views(),
            final(self).undo_entries() == old(self).undo_entries(),
            final(self).redo_entries() == old(self).redo_entries(),
            final(self).sel_history_sets() == fold_sels(
                old(self).sel_history_sets(),
                old(self).text(),
                crate::edit::views_of(edits@),
            ),
            final(self).sel_history_cursor() == old(self).sel_history_cursor(),
    {
        let ghost evs = crate::edit::views_of(edits@);
        let ghost orig = *old(self);
        let mut k = edits.len();
        proof {
            assert(evs.take(k as int) =~= evs);
        }
        while k > 0
            invariant
                k <= edits@.len(),
                evs == crate::edit::views_of(edits@),
                evs.len() == edits@.len(),
                forall|i: int| 0 <= i < evs.len() ==> evs[i] == edits@[i].ev(),
                self.wf(),
                crate::edit::tx_valid(evs.take(k as int), self.text().len() as int),
                crate::edit::apply_edits(orig.text(), evs) == crate::edit::apply_edits(
                    self.text(),
                    evs.take(k as int),
                ),
                fold_marks(orig.marks_view(), orig.text(), evs) == fold_marks(
                    self.marks_view(),
                    self.text(),
                    evs.take(k as int),
                ),
                fold_diags(orig.diagnostics_view(), orig.text(), evs) == fold_diags(
                    self.diagnostics_view(),
                    self.text(),
                    evs.take(k as int),
                ),
                fold_qf(orig.quickfix_view(), orig.text(), evs) == fold_qf(
                    self.quickfix_view(),
                    self.text(),
                    evs.take(k as int),
                ),
                fold_spans(
                    orig.highlighted_spans_view(),
                    orig.text(),
                    evs,
                    last_visible_line as int,
                ) == fold_spans(
                    self.highlighted_spans_view(),
                    self.text(),
                    evs.take(k as int),
                    last_visible_line as int,
                ),
                self.dirty_spec() == (orig.dirty_spec() || k < edits@.len()),
                self.owner_spec() == if k < edits@.len() {
                    BufferOwner::User
                } else {
                    orig.owner_spec()
                },
                self.batch_id_spec() == orig.batch_id_spec(),
                self.tree_view() == orig.tree_view(),
                self.path_view() == orig.path_view(),
                self.undo_count() == orig.undo_count(),
                self.redo_count() == orig.redo_count(),
                self.undo_tx_views() == orig.undo_tx_views(),
                self.redo_tx_views() == orig.redo_tx_views(),
                self.undo_entries() == orig.undo_entries(),
                self.redo_entries() == orig.redo_entries(),
                fold_sels(orig.sel_history_sets(), orig.text(), evs) == fold_sels(
                    self.sel_history_sets(),
                    self.text(),
                    evs.take(k as int),
                ),
                self.sel_history_cursor() == orig.sel_history_cursor(),
                orig == *old(self),
            decreases k,
        {
            k = k - 1;
            proof {
                assert(evs.take(k + 1).last() == evs[k as int]);
                assert(evs.take(k + 1).drop_last() =~= evs.take(k as int));
                assert(evs[k as int].wf());
                assert(evs[k as int].hi <= self.text().len());
            }
            let ghost pre = *self;
            self.apply_edit(&edits[k], last_visible_line);
            proof {
                // validity of the remaining prefix against the new text
                assert forall|i: int|
                    0 <= i < evs.take(k as int).len() implies (#[trigger] evs.take(
                    k as int,
                )[i]).hi <= self.text().len() by {
                    if i < k - 1 {
                        crate::edit::lemma_sorted_chain(
                            evs.take(k + 1),
                            i,
                            k as int,
                            pre.text().len() as int,
                        );
                    } else {
                        assert(evs.take(k + 1)[i] == evs[i]);
                    }
                }
            }
        }
        proof {
            assert(evs.take(0) =~= Seq::<crate::edit::EditView>::empty());
        }
    }
}


impl Buffer {
    /// Apply a whole transaction atomically. The transaction's ranges
    /// address the current text; it is applied exactly when it is valid and
    /// its inverse is representable ([`crate::edit::tx_applicable`]), and
    /// otherwise nothing changes. On success: the text becomes `apply_edits`
    /// of the transaction; every satellite is remapped (see the folds); the
    /// batch id advances, invalidating in-flight highlight results; the
    /// buffer is dirty and user-owned (when the transaction has edits); when
    /// `update_undo_stack` is set, the inverse transaction is pushed onto the
    /// undo stack together with the pre/post states and both directions of
    /// the protocol diff, and the redo stack is cleared. Returns the
    /// resulting selection set (one selection per edit, at its post-edit
    /// range, or the given set for an empty transaction) and the
    /// protocol-level diff of the forward transaction, measured against the
    /// pre-edit text.
    #[verifier::rlimit(100)]
    pub fn apply_edit_transaction(
        &mut self,
        edit_transaction: &crate::edit::EditTransaction,
        current_selection_set: SelectionSet,
        reparse: bool,
        update_undo_stack: bool,
        last_visible_line: u16,
    ) -> (res: Result<(SelectionSet, Vec<crate::position::ProtocolDiffEdit>), CoreError>)
        requires
            old(self).wf(),
        ensures
            final(self).wf(),
            res is Ok <==> crate::edit::tx_applicable(
                edit_transaction.evs(),
                old(self).text().len() as int,
            ),
            match res {
                Ok(r) => {
                    let evs = edit_transaction.evs();
                    &&& final(self).text() == crate::edit::apply_edits(old(self).text(), evs)
                    &&& final(self).marks_view() == fold_marks(
                        old(self).marks_view(),
                        old(self).text(),
                        evs,
                    )
                    &&& final(self).diagnostics_view() == fold_diags(
                        old(self).diagnostics_view(),
                        old(self).text(),
                        evs,
                    )
                    &&& final(self).quickfix_view() == fold_qf(
                        old(self).quickfix_view(),
                        old(self).text(),
                        evs,
                    )
                    &&& final(self).highlighted_spans_view() == fold_spans(
                        old(self).highlighted_spans_view(),
                        old(self).text(),
                        evs,
                        last_visible_line as int,
                    )
                    &&& final(self).sel_history_sets() == fold_sels(
                        old(self).sel_history_sets(),
                        old(self).text(),
                        evs,
                    )
                    &&& final(self).sel_history_cursor() == old(self).sel_history_cursor()
                    &&& final(self).dirty_spec() == (old(self).dirty_spec() || evs.len() > 0)
                    &&& final(self).batch_id_spec() != old(self).batch_id_spec()
                    &&& (update_undo_stack ==> final(self).undo_tx_views() == old(self).undo_tx_views().push(crate::edit::inverse_views(evs)) && final(self).redo_count() == 0)
                    &&& (update_undo_stack ==> final(self).undo_entries() == old(self).undo_entries().push(
                        HistView {
                            tx: crate::edit::inverse_views(evs),
                            old_sel: current_selection_set.ranges(),
                            new_sel: r.0.ranges(),
                            old_marks: old(self).marks_view(),
                            new_marks: final(self).marks_view(),
                            stored_edits: protocol_views_spec(
                                final(self).text(),
                                crate::edit::inverse_views(evs),
                            ),
                            inverted_edits: protocol_views_spec(old(self).text(), evs),
                        },
                    ))
                    &&& (!update_undo_stack ==> final(self).undo_tx_views() == old(self).undo_tx_views() && final(self).redo_tx_views() == old(self).redo_tx_views()
                        && final(self).undo_entries() == old(self).undo_entries() && final(self).redo_entries() == old(self).redo_entries())
                    &&& (!reparse ==> final(self).tree_view() == old(self).tree_view())
                    &&& r.1@.len() == evs.len()
                    &&& forall|i: int|
                        0 <= i < evs.len() ==> pd_view(#[trigger] r.1@[i]) == protocol_edit_of(
                            old(self).text(),
                            evs[i],
                        )
                    &&& (evs.len() > 0 ==> r.0.selections@.len() == evs.len() && forall|i: int|
                        0 <= i < evs.len() ==> (#[trigger] r.0.selections@[i]).range.start.0
                            == crate::edit::inverse_views(evs)[i].lo
                            && r.0.selections@[i].range.end.0 == crate::edit::inverse_views(
                            evs,
                        )[i].hi)
                    &&& (evs.len() == 0 ==> r.0.selections@ == current_selection_set.selections@)
                },
                Err(e) => {
                    &&& e == CoreError::InvalidTransaction
                    &&& final(self).text() == old(self).text()
                    &&& final(self).marks_view() == old(self).marks_view()
                    &&& final(self).diagnostics_view() == old(self).diagnostics_view()
                    &&& final(self).quickfix_view() == old(self).quickfix_view()
                    &&& final(self).highlighted_spans_view() == old(self).highlighted_spans_view()
                    &&& final(self).batch_id_spec() == old(self).batch_id_spec()
                    &&& final(self).undo_tx_views() == old(self).undo_tx_views()
                    &&& final(self).redo_tx_views() == old(self).redo_tx_views()
                    &&& final(self).undo_entries() == old(self).undo_entries()
                    &&& final(self).redo_entries() == old(self).redo_entries()
                    &&& final(self).sel_history_sets() == old(self).sel_history_sets()
                    &&& final(self).sel_history_cursor() == old(self).sel_history_cursor()
                    &&& final(self).dirty_spec() == old(self).dirty_spec()
                    &&& final(self).tree_view() == old(self).tree_view()
                },
            },
    {
        let ghost evs = edit_transaction.evs();
        let edits = edit_transaction.edits();
        let text_len = rope_len(&self.rope);
        let inverse = match crate::edit::compute_inverse(&edits, text_len) {
            Some(inv) => inv,
            None => {
                return Err(CoreError::InvalidTransaction);
            },
        };
        proof {
            assert(crate::edit::views_of(edits@) == evs);
            assert forall|i: int|
                0 <= i < edits@.len() implies (#[trigger] edits@[i].ev()).wf() && edits@[i].ev().hi
                <= self.text().len() by {
                assert(crate::edit::views_of(edits@)[i] == edits@[i].ev());
            }
        }

        // the forward protocol diff is measured before anything changes
        let applied_vscode = self.protocol_edits_of(&edits);

        // one selection per edit, at the range its replacement occupies
        // after the transaction: exactly the inverse edits' ranges
        let new_selection_set = if edits.len() > 0 {
            let mut sels: Vec<crate::selection::Selection> = Vec::new();
            let mut si: usize = 0;
            let n = inverse.len();
            proof {
                crate::edit::lemma_inverse_len(evs);
            }
            while si < n
                invariant
                    si <= n == inverse@.len(),
                    crate::edit::views_of(inverse@) == crate::edit::inverse_views(evs),
                    crate::edit::inverse_views(evs).len() == n,
                    sels@.len() == si,
                    forall|i: int|
                        0 <= i < si ==> (#[trigger] sels@[i]).range.start.0
                            == crate::edit::inverse_views(evs)[i].lo && sels@[i].range.end.0
                            == crate::edit::inverse_views(evs)[i].hi,
                decreases n - si,
            {
                proof {
                    assert(crate::edit::views_of(inverse@)[si as int] == inverse@[si as int].ev());
                }
                sels.push(crate::selection::Selection { range: inverse[si].range });
                si = si + 1;
            }
            SelectionSet { selections: sels }
        } else {
            current_selection_set.copy_of()
        };

        let old_marks = self.marks();
        let ghost pre = *self;

        self.apply_validated_edits(&edits, last_visible_line);

        proof {
            crate::edit::lemma_apply_len(pre.text(), evs);
            crate::edit::lemma_inverse_valid(pre.text().len() as int, evs);
            crate::edit::lemma_inverse_len(evs);
            assert forall|i: int|
                0 <= i < inverse@.len() implies (#[trigger] inverse@[i].ev()).wf()
                && inverse@[i].ev().hi <= self.text().len() by {
                assert(crate::edit::views_of(inverse@)[i] == inverse@[i].ev());
                assert(crate::edit::inverse_views(evs)[i].hi <= self.text().len() as int);
            }
        }
        if reparse {
            self.reparse_tree();
        }
        proof {
            assert forall|i: int|
                0 <= i < inverse@.len() implies (#[trigger] inverse@[i].ev()).wf()
                && inverse@[i].ev().hi <= self.text().len() by {
                assert(crate::edit::views_of(inverse@)[i] == inverse@[i].ev());
            }
        }

        // the inverse protocol diff is measured after the transaction
        let inverted_vscode = self.protocol_edits_of(&inverse);

        if update_undo_stack {
            let new_marks = self.marks();
            let fwd_copy = Self::copy_protocol_edits(&applied_vscode);
            let ghost inv_pd = inverted_vscode@;
            let ghost fwd_pd = fwd_copy@;
            let entry = EditHistory {
                edit_transaction: crate::edit::EditTransaction::from_edits(inverse),
                old_state: BufferState {
                    selection_set: current_selection_set,
                    marks: old_marks,
                },
                new_state: BufferState {
                    selection_set: new_selection_set.copy_of(),
                    marks: new_marks,
                },
                unnormalized_edits: inverted_vscode,
                inverted_unnormalized_edits: fwd_copy,
            };
            let ghost entry_view = hist_view(entry);
            self.undo_stack.push(entry);
            self.redo_stack = Vec::new();
            proof {
                assert(self.undo_tx_views() =~= pre.undo_tx_views().push(
                    crate::edit::inverse_views(evs),
                ));
                assert(self.redo_tx_views() =~= Seq::<Seq<crate::edit::EditView>>::empty());
                assert(self.redo_entries() =~= Seq::<HistView>::empty());
                assert(entry_view.tx == crate::edit::inverse_views(evs));
                crate::edit::lemma_inverse_len(evs);
                assert(entry_view.stored_edits =~= protocol_views_spec(
                    self.text(),
                    crate::edit::inverse_views(evs),
                )) by {
                    assert forall|i: int|
                        0 <= i < inverse@.len() implies #[trigger] pd_views(inv_pd)[i]
                        == protocol_views_spec(
                        self.text(),
                        crate::edit::inverse_views(evs),
                    )[i] by {
                        assert(pd_views(inv_pd)[i] == pd_view(inv_pd[i]));
                        assert(crate::edit::views_of(inverse@)[i] == inverse@[i].ev());
                        assert(protocol_views_spec(self.text(), crate::edit::inverse_views(evs))[i]
                            == protocol_edit_of(
                            self.text(),
                            crate::edit::inverse_views(evs)[i],
                        ));
                    }
                }
                assert(entry_view.inverted_edits =~= protocol_views_spec(pre.text(), evs)) by {
                    assert forall|i: int|
                        0 <= i < evs.len() implies #[trigger] pd_views(fwd_pd)[i]
                        == protocol_views_spec(pre.text(), evs)[i] by {
                        assert(pd_views(fwd_pd)[i] == pd_view(fwd_pd[i]));
                        assert(pd_views(applied_vscode@)[i] == pd_view(applied_vscode@[i]));
                        assert(protocol_views_spec(pre.text(), evs)[i] == protocol_edit_of(
                            pre.text(),
                            evs[i],
                        ));
                    }
                }
                assert(self.undo_entries() =~= pre.undo_entries().push(entry_view));
            }
        }

        self.batch_id.increment();
        Ok((new_selection_set, applied_vscode))
    }

    /// Install a validated syntax tree (from a grammar collaborator that
    /// parsed elsewhere), or remove the tree.
    pub fn set_tree(&mut self, tree: Option<SyntaxTree>)
        requires
            old(self).wf(),
            match tree {
                Some(t) => t.wf(),
                None => true,
            },
        ensures
            final(self).wf(),
            final(self).text() == old(self).text(),
            final(self).tree_view() == match tree {
                Some(t) => Some(t.nodes@),
                None => None::<Seq<crate::syntax_tree::SyntaxNode>>,
            },
    {
        self.tree = tree;
    }

    /// Re-parse the whole text with the buffer's grammar, replacing the
    /// tree; everything else is untouched. Parsing from scratch is a
    /// deliberate simplification over incremental tree edits.
    pub fn reparse_tree(&mut self)
        requires
            old(self).wf(),
        ensures
            final(self).wf(),
            final(self).text() == old(self).text(),
            final(self).marks_view() == old(self).marks_view(),
            final(self).diagnostics_view() == old(self).diagnostics_view(),
            final(self).quickfix_view() == old(self).quickfix_view(),
            final(self).highlighted_spans_view() == old(self).highlighted_spans_view(),
            final(self).dirty_spec() == old(self).dirty_spec(),
            final(self).owner_spec() == old(self).owner_spec(),
            final(self).batch_id_spec() == old(self).batch_id_spec(),
            final(self).undo_tx_views() == old(self).undo_tx_views(),
            final(self).redo_tx_views() == old(self).redo_tx_views(),
            final(self).undo_entries() == old(self).undo_entries(),
            final(self).redo_entries() == old(self).redo_entries(),
            final(self).sel_history_sets() == old(self).sel_history_sets(),
            final(self).sel_history_cursor() == old(self).sel_history_cursor(),
            final(self).undo_count() == old(self).undo_count(),
            final(self).redo_count() == old(self).redo_count(),
            final(self).path_view() == old(self).path_view(),
    {
        let tree = match &self.treesitter_language {
            Some(lang) => {
                let content = rope_string(&self.rope);
                match parse_raw_nodes(lang, content.as_str()) {
                    Some(raw) => SyntaxTree::from_raw(&raw),
                    None => None,
                }
            },
            None => None,
        };
        self.tree = tree;
    }

    /// Replace the whole text (and tree) without going through an edit
    /// transaction: satellites and histories keep their now possibly stale
    /// values, to be remapped or dropped by later edits.
    pub fn update(&mut self, text: &str)
        requires
            old(self).wf(),
        ensures
            final(self).wf(),
            final(self).text() == text@,
            final(self).dirty_spec(),
            final(self).owner_spec() == BufferOwner::User,
            final(self).marks_view() == old(self).marks_view(),
            final(self).diagnostics_view() == old(self).diagnostics_view(),
            final(self).quickfix_view() == old(self).quickfix_view(),
            final(self).highlighted_spans_view() == old(self).highlighted_spans_view(),
            final(self).undo_tx_views() == old(self).undo_tx_views(),
            final(self).redo_tx_views() == old(self).redo_tx_views(),
            final(self).sel_history_sets() == old(self).sel_history_sets(),
            final(self).sel_history_cursor() == old(self).sel_history_cursor(),
            final(self).batch_id_spec() == old(self).batch_id_spec(),
            final(self).path_view() == old(self).path_view(),
    {
        self.rope = rope_from_str(text);
        self.reparse_tree();
        self.dirty = true;
        self.owner = BufferOwner::User;
    }

    /// Should the buffer's content be written out? (The write itself is the
    /// caller's I/O.)
    pub fn should_persist(&self, force: bool) -> (res: bool)
        ensures
            res == (force || self.dirty_spec()),
    {
        force || self.dirty
    }

    /// Record that the current content has been written to the backing path.
    pub fn mark_saved(&mut self)
        requires
            old(self).wf(),
        ensures
            final(self).wf(),
            final(self).text() == old(self).text(),
            !final(self).dirty_spec(),
    {
        self.dirty = false;
    }

    /// Undo: pop the newest history entry and apply the inverse transaction
    /// it holds; the entry's own inverse moves to the redo stack. Returns the
    /// entry's pre-recorded selection set and protocol diff — nothing is
    /// recomputed from positions. `Ok(None)` when there is nothing to undo.
    pub fn undo(&mut self, last_visible_line: u16) -> (res: Result<
        Option<(SelectionSet, Vec<crate::position::ProtocolDiffEdit>)>,
        CoreError,
    >)
        requires
            old(self).wf(),
        ensures
            final(self).wf(),
            old(self).undo_count() == 0 ==> res == Ok::<
                Option<(SelectionSet, Vec<crate::position::ProtocolDiffEdit>)>,
                CoreError,
            >(None) && unchanged_but_tree(*old(self), *final(self)) && final(self).tree_view()
                == old(self).tree_view(),
            old(self).undo_count() > 0 ==> {
                let top = old(self).undo_tx_views().last();
                let entry = old(self).undo_entries().last();
                &&& (res is Ok && res->Ok_0 is Some <==> crate::edit::tx_applicable(
                    top,
                    old(self).text().len() as int,
                ))
                &&& (match res {
                    Ok(r) => r is Some && {
                        let p = r->0;
                        &&& final(self).text() == crate::edit::apply_edits(old(self).text(), top)
                        &&& p.0.ranges() == entry.old_sel
                        &&& pd_views(p.1@) == entry.stored_edits
                        &&& final(self).marks_view() == fold_marks(
                            old(self).marks_view(),
                            old(self).text(),
                            top,
                        )
                        &&& final(self).diagnostics_view() == fold_diags(
                            old(self).diagnostics_view(),
                            old(self).text(),
                            top,
                        )
                        &&& final(self).quickfix_view() == fold_qf(
                            old(self).quickfix_view(),
                            old(self).text(),
                            top,
                        )
                        &&& final(self).highlighted_spans_view() == fold_spans(
                            old(self).highlighted_spans_view(),
                            old(self).text(),
                            top,
                            last_visible_line as int,
                        )
                        &&& final(self).undo_tx_views() == old(self).undo_tx_views().drop_last()
                        &&& final(self).undo_entries() == old(self).undo_entries().drop_last()
                        &&& final(self).redo_tx_views() == old(self).redo_tx_views().push(
                            crate::edit::inverse_views(top),
                        )
                        &&& final(self).redo_entries() == old(self).redo_entries().push(
                            HistView {
                                tx: crate::edit::inverse_views(top),
                                old_sel: entry.new_sel,
                                new_sel: entry.old_sel,
                                old_marks: entry.new_marks,
                                new_marks: entry.old_marks,
                                stored_edits: entry.inverted_edits,
                                inverted_edits: entry.stored_edits,
                            },
                        )
                        &&& final(self).batch_id_spec() == old(self).batch_id_spec()
                    },
                    Err(e) => e == CoreError::InvalidTransaction && unchanged_but_tree(
                        *old(self),
                        *final(self),
                    ) && final(self).tree_view() == old(self).tree_view(),
                })
            },
    {
        let entry = match self.undo_stack.pop() {
            Some(e) => e,
            None => {
                return Ok(None);
            },
        };
        let ghost pre = *old(self);
        let ghost top_entry = pre.undo_entries().last();
        proof {
            assert(hist_view(entry) == top_entry);
        }
        let edits = entry.edit_transaction.edits();
        let ghost top = crate::edit::views_of(edits@);
        proof {
            assert(pre.undo_tx_views().last() == top);
            assert(self.undo_tx_views() =~= pre.undo_tx_views().drop_last());
            assert(self.undo_entries() =~= pre.undo_entries().drop_last());
        }
        let text_len = rope_len(&self.rope);
        let inverse = match crate::edit::compute_inverse(&edits, text_len) {
            Some(inv) => inv,
            None => {
                self.undo_stack.push(entry);
                proof {
                    assert(self.undo_tx_views() =~= pre.undo_tx_views());
                    assert(self.undo_entries() =~= pre.undo_entries());
                }
                return Err(CoreError::InvalidTransaction);
            },
        };
        let selection_set = entry.old_state.selection_set.copy_of();
        let reported = Self::copy_protocol_edits(&entry.unnormalized_edits);
        proof {
            assert(selection_set.ranges() == top_entry.old_sel);
            assert(pd_views(reported@) =~= top_entry.stored_edits) by {
                assert forall|i: int|
                    0 <= i < reported@.len() implies #[trigger] pd_views(reported@)[i]
                    == pd_views(entry.unnormalized_edits@)[i] by {
                    assert(pd_views(reported@)[i] == pd_view(reported@[i]));
                    assert(pd_views(entry.unnormalized_edits@)[i] == pd_view(
                        entry.unnormalized_edits@[i],
                    ));
                }
            }
        }

        self.apply_validated_edits(&edits, last_visible_line);
        self.reparse_tree();

        let redo_entry = EditHistory {
            edit_transaction: crate::edit::EditTransaction::from_edits(inverse),
            old_state: entry.new_state,
            new_state: entry.old_state,
            unnormalized_edits: entry.inverted_unnormalized_edits,
            inverted_unnormalized_edits: entry.unnormalized_edits,
        };
        let ghost redo_view = hist_view(redo_entry);
        self.redo_stack.push(redo_entry);
        proof {
            assert(self.redo_tx_views() =~= pre.redo_tx_views().push(
                crate::edit::inverse_views(top),
            ));
            assert(redo_view.tx == crate::edit::inverse_views(top));
            assert(self.redo_entries() =~= pre.redo_entries().push(redo_view));
        }
        Ok(Some((selection_set, reported)))
    }

    /// Redo: the mirror image of [`Self::undo`].
    pub fn redo(&mut self, last_visible_line: u16) -> (res: Result<
        Option<(SelectionSet, Vec<crate::position::ProtocolDiffEdit>)>,
        CoreError,
    >)
        requires
            old(self).wf(),
        ensures
            final(self).wf(),
            old(self).redo_count() == 0 ==> res == Ok::<
                Option<(SelectionSet, Vec<crate::position::ProtocolDiffEdit>)>,
                CoreError,
            >(None) && unchanged_but_tree(*old(self), *final(self)) && final(self).tree_view()
                == old(self).tree_view(),
            old(self).redo_count() > 0 ==> {
                let top = old(self).redo_tx_views().last();
                let entry = old(self).redo_entries().last();
                &&& (res is Ok && res->Ok_0 is Some <==> crate::edit::tx_applicable(
                    top,
                    old(self).text().len() as int,
                ))
                &&& (match res {
                    Ok(r) => r is Some && {
                        let p = r->0;
                        &&& final(self).text() == crate::edit::apply_edits(old(self).text(), top)
                        &&& p.0.ranges() == entry.old_sel
                        &&& pd_views(p.1@) == entry.stored_edits
                        &&& final(self).marks_view() == fold_marks(
                            old(self).marks_view(),
                            old(self).text(),
                            top,
                        )
                        &&& final(self).diagnostics_view() == fold_diags(
                            old(self).diagnostics_view(),
                            old(self).text(),
                            top,
                        )
                        &&& final(self).quickfix_view() == fold_qf(
                            old(self).quickfix_view(),
                            old(self).text(),
                            top,
                        )
                        &&& final(self).highlighted_spans_view() == fold_spans(
                            old(self).highlighted_spans_view(),
                            old(self).text(),
                            top,
                            last_visible_line as int,
                        )
                        &&& final(self).redo_tx_views() == old(self).redo_tx_views().drop_last()
                        &&& final(self).redo_entries() == old(self).redo_entries().drop_last()
                        &&& final(self).undo_tx_views() == old(self).undo_tx_views().push(
                            crate::edit::inverse_views(top),
                        )
                        &&& final(self).undo_entries() == old(self).undo_entries().push(
                            HistView {
                                tx: crate::edit::inverse_views(top),
                                old_sel: entry.new_sel,
                                new_sel: entry.old_sel,
                                old_marks: entry.new_marks,
                                new_marks: entry.old_marks,
                                stored_edits: entry.inverted_edits,
                                inverted_edits: entry.stored_edits,
                            },
                        )
                        &&& final(self).batch_id_spec() == old(self).batch_id_spec()
                    },
                    Err(e) => e == CoreError::InvalidTransaction && unchanged_but_tree(
                        *old(self),
                        *final(self),
                    ) && final(self).tree_view() == old(self).tree_view(),
                })
            },
    {
        let entry = match self.redo_stack.pop() {
            Some(e) => e,
            None => {
                return Ok(None);
            },
        };
        let ghost pre = *old(self);
        let ghost top_entry = pre.redo_entries().last();
        proof {
            assert(hist_view(entry) == top_entry);
        }
        let edits = entry.edit_transaction.edits();
        let ghost top = crate::edit::views_of(edits@);
        proof {
            assert(pre.redo_tx_views().last() == top);
            assert(self.redo_tx_views() =~= pre.redo_tx_views().drop_last());
            assert(self.redo_entries() =~= pre.redo_entries().drop_last());
        }
        let text_len = rope_len(&self.rope);
        let inverse = match crate::edit::compute_inverse(&edits, text_len) {
            Some(inv) => inv,
            None => {
                self.redo_stack.push(entry);
                proof {
                    assert(self.redo_tx_views() =~= pre.redo_tx_views());
                    assert(self.redo_entries() =~= pre.redo_entries());
                }
                return Err(CoreError::InvalidTransaction);
            },
        };
        let selection_set = entry.old_state.selection_set.copy_of();
        let reported = Self::copy_protocol_edits(&entry.unnormalized_edits);
        proof {
            assert(selection_set.ranges() == top_entry.old_sel);
            assert(pd_views(reported@) =~= top_entry.stored_edits) by {
                assert forall|i: int|
                    0 <= i < reported@.len() implies #[trigger] pd_views(reported@)[i]
                    == pd_views(entry.unnormalized_edits@)[i] by {
                    assert(pd_views(reported@)[i] == pd_view(reported@[i]));
                    assert(pd_views(entry.unnormalized_edits@)[i] == pd_view(
                        entry.unnormalized_edits@[i],
                    ));
                }
            }
        }

        self.apply_validated_edits(&edits, last_visible_line);
        self.reparse_tree();

        let undo_entry = EditHistory {
            edit_transaction: crate::edit::EditTransaction::from_edits(inverse),
            old_state: entry.new_state,
            new_state: entry.old_state,
            unnormalized_edits: entry.inverted_unnormalized_edits,
            inverted_unnormalized_edits: entry.unnormalized_edits,
        };
        let ghost undo_view = hist_view(undo_entry);
        self.undo_stack.push(undo_entry);
        proof {
            assert(self.undo_tx_views() =~= pre.undo_tx_views().push(
                crate::edit::inverse_views(top),
            ));
            assert(undo_view.tx == crate::edit::inverse_views(top));
            assert(self.undo_entries() =~= pre.undo_entries().push(undo_view));
        }
        Ok(Some((selection_set, reported)))
    }
}


/// How a find-replace pattern is assembled from its configuration: the
/// search text (escaped when requested) is wrapped in a word-boundary group
/// when whole-word matching is on, and prefixed with the case-insensitive
/// flag unless matching is case-sensitive.
pub open spec fn pattern_spec(
    escaped: bool,
    case_sensitive: bool,
    match_whole_word: bool,
    search: Seq<char>,
) -> Seq<char> {
    let core = if escaped {
        crate::search::regex_escaped(search)
    } else {
        search
    };
    let with_word = if match_whole_word {
        "\\b(?:"@ + core + ")\\b"@
    } else {
        core
    };
    if !case_sensitive {
        "(?i)"@ + with_word
    } else {
        with_word
    }
}

/// Configuration of the regex find-replace mode.
#[derive(Clone, Copy, PartialEq, Eq, Structural, Debug)]
pub struct RegexConfig {
    pub escaped: bool,
    pub case_sensitive: bool,
    pub match_whole_word: bool,
}

/// One rewrite produced by a structural pattern match: a byte position, the
/// number of characters it deletes, and the text it inserts.
#[derive(Debug)]
pub struct StructEdit {
    pub position_byte: usize,
    pub deleted_length: usize,
    pub inserted_text: String,
}

/// The mathematical content of a [`StructEdit`].
pub ghost struct StructEditView {
    pub position_byte: int,
    pub deleted_length: int,
    pub inserted: Seq<char>,
}

pub open spec fn struct_edit_views(s: Seq<StructEdit>) -> Seq<StructEditView> {
    s.map_values(
        |e: StructEdit| StructEditView {
            position_byte: e.position_byte as int,
            deleted_length: e.deleted_length as int,
            inserted: e.inserted_text@,
        },
    )
}

/// A structural rewrite addresses the text when its byte position lies in
/// the text and the deleted character count fits behind it.
pub open spec fn struct_edit_ok(v: StructEditView, text: Seq<char>) -> bool {
    &&& v.position_byte <= byte_index_of(text, text.len() as int)
    &&& char_index_at_byte(text, v.position_byte) + v.deleted_length <= text.len()
}

pub open spec fn struct_edits_ok(vs: Seq<StructEditView>, text: Seq<char>) -> bool {
    forall|i: int| 0 <= i < vs.len() ==> struct_edit_ok(#[trigger] vs[i], text)
}

/// The edit a structural rewrite translates to: its byte position becomes a
/// character index, the deleted span is read from the text.
pub open spec fn translate_struct_edit(v: StructEditView, text: Seq<char>) -> crate::edit::EditView {
    let lo = char_index_at_byte(text, v.position_byte);
    crate::edit::EditView {
        lo,
        hi: lo + v.deleted_length,
        del: text.subrange(lo, lo + v.deleted_length),
        ins: v.inserted,
    }
}

pub open spec fn translate_struct_edits(vs: Seq<StructEditView>, text: Seq<char>) -> Seq<
    crate::edit::EditView,
> {
    vs.map_values(|v: StructEditView| translate_struct_edit(v, text))
}

/// The views of a list of strings.
pub open spec fn string_views(s: Seq<String>) -> Seq<Seq<char>> {
    s.map_values(|x: String| x@)
}

/// The text of the last word match starting strictly before byte `b`.
pub open spec fn last_word_before(ms: Seq<(int, Seq<char>)>, b: int) -> Seq<char>
    decreases ms.len(),
{
    if ms.len() == 0 {
        Seq::<char>::empty()
    } else if ms.last().0 < b {
        ms.last().1
    } else {
        last_word_before(ms.drop_last(), b)
    }
}

impl Buffer {
    /// The edit transaction that reconciles this buffer's text with `new`,
    /// derived from a line diff: valid against the current text, its `old`s
    /// are the text its ranges address, and applying it yields `new` exactly.
    pub fn get_edit_transaction(&self, new: &str) -> (res: crate::edit::EditTransaction)
        ensures
            res.evs() == crate::diff::coalesced_edits(crate::diff::diff_of(self.text(), new@)),
            res.action_groups@.len() == res.evs().len(),
            crate::edit::tx_valid(res.evs(), self.text().len() as int),
            crate::edit::olds_match(res.evs(), self.text()),
            crate::edit::apply_edits(self.text(), res.evs()) == new@,
    {
        let content = rope_string(&self.rope);
        let changes = crate::diff::diff_changes(content.as_str(), new);
        let old_len = rope_len(&self.rope);
        let edits = crate::diff::diff_to_edits(&changes, old_len);
        crate::edit::EditTransaction::from_edits(edits)
    }

    /// Replace the buffer's content with `new_content` through an undoable
    /// edit transaction derived from a line diff. Never fails; afterwards the
    /// text is exactly `new_content`.
    pub fn update_content(
        &mut self,
        new_content: &str,
        current_selection_set: SelectionSet,
        last_visible_line: u16,
    ) -> (res: Result<(SelectionSet, Vec<crate::position::ProtocolDiffEdit>), CoreError>)
        requires
            old(self).wf(),
        ensures
            final(self).wf(),
            res is Ok,
            final(self).text() == new_content@,
            ({
                let t = crate::diff::coalesced_edits(
                    crate::diff::diff_of(old(self).text(), new_content@),
                );
                &&& crate::edit::tx_applicable(t, old(self).text().len() as int)
                &&& crate::edit::olds_match(t, old(self).text())
                &&& crate::edit::apply_edits(old(self).text(), t) == new_content@
                &&& final(self).undo_tx_views() == old(self).undo_tx_views().push(
                    crate::edit::inverse_views(t),
                )
                &&& final(self).marks_view() == fold_marks(
                    old(self).marks_view(),
                    old(self).text(),
                    t,
                )
                &&& final(self).diagnostics_view() == fold_diags(
                    old(self).diagnostics_view(),
                    old(self).text(),
                    t,
                )
                &&& final(self).quickfix_view() == fold_qf(
                    old(self).quickfix_view(),
                    old(self).text(),
                    t,
                )
                &&& final(self).highlighted_spans_view() == fold_spans(
                    old(self).highlighted_spans_view(),
                    old(self).text(),
                    t,
                    last_visible_line as int,
                )
            }),
            final(self).redo_count() == 0,
            final(self).dirty_spec() == (old(self).dirty_spec() || crate::diff::coalesced_edits(
                crate::diff::diff_of(old(self).text(), new_content@),
            ).len() > 0),
            final(self).batch_id_spec() != old(self).batch_id_spec(),
    {
        let tx = self.get_edit_transaction(new_content);
        let new_char_len = new_content.unicode_len();
        proof {
            crate::edit::lemma_fits_from_len(self.text(), tx.evs());
        }
        let r = self.apply_edit_transaction(
            &tx,
            current_selection_set,
            true,
            true,
            last_visible_line,
        );
        match r {
            Ok(p) => Ok(p),
            Err(_) => {
                proof {
                    assert(false);
                }
                Err(CoreError::InvalidTransaction)
            },
        }
    }

    /// Regex-mode find-replace: every match of the assembled pattern (see
    /// [`pattern_spec`]) is replaced in one pass, and the result is folded
    /// back in as an undoable reconciliation transaction. The returned flag
    /// says whether the content actually changed. Fails (leaving the buffer
    /// untouched) exactly when the pattern engine rejects the pattern.
    pub fn replace(
        &mut self,
        config: RegexConfig,
        search: &str,
        replacement: &str,
        current_selection_set: SelectionSet,
        last_visible_line: u16,
    ) -> (res: Result<
        (bool, SelectionSet, Vec<crate::position::ProtocolDiffEdit>),
        CoreError,
    >)
        requires
            old(self).wf(),
        ensures
            final(self).wf(),
            res is Ok <==> crate::search::pattern_ok(
                pattern_spec(config.escaped, config.case_sensitive, config.match_whole_word, search@),
            ),
            match res {
                Ok(r) => {
                    let replaced = crate::search::regex_replaced(
                        pattern_spec(
                            config.escaped,
                            config.case_sensitive,
                            config.match_whole_word,
                            search@,
                        ),
                        old(self).text(),
                        replacement@,
                    );
                    let t = crate::diff::coalesced_edits(
                        crate::diff::diff_of(old(self).text(), replaced),
                    );
                    &&& final(self).text() == replaced
                    &&& r.0 == (final(self).text() != old(self).text())
                    &&& final(self).undo_tx_views() == old(self).undo_tx_views().push(
                        crate::edit::inverse_views(t),
                    )
                    &&& final(self).marks_view() == fold_marks(
                        old(self).marks_view(),
                        old(self).text(),
                        t,
                    )
                    &&& final(self).highlighted_spans_view() == fold_spans(
                        old(self).highlighted_spans_view(),
                        old(self).text(),
                        t,
                        last_visible_line as int,
                    )
                    &&& final(self).redo_count() == 0
                    &&& final(self).batch_id_spec() != old(self).batch_id_spec()
                },
                Err(e) => {
                    &&& e == CoreError::Pattern
                    &&& final(self).text() == old(self).text()
                    &&& final(self).marks_view() == old(self).marks_view()
                    &&& final(self).diagnostics_view() == old(self).diagnostics_view()
                    &&& final(self).quickfix_view() == old(self).quickfix_view()
                    &&& final(self).highlighted_spans_view() == old(self).highlighted_spans_view()
                    &&& final(self).batch_id_spec() == old(self).batch_id_spec()
                    &&& final(self).undo_tx_views() == old(self).undo_tx_views()
                    &&& final(self).redo_tx_views() == old(self).redo_tx_views()
                },
            },
    {
        let core: String = if config.escaped {
            crate::search::regex_escape(search)
        } else {
            String::from_str(search)
        };
        let mut pat: String = String::new();
        if !config.case_sensitive {
            pat.append("(?i)");
        }
        if config.match_whole_word {
            pat.append("\\b(?:");
            pat.append(core.as_str());
            pat.append(")\\b");
        } else {
            pat.append(core.as_str());
        }
        proof {
            assert(pat@ =~= pattern_spec(
                config.escaped,
                config.case_sensitive,
                config.match_whole_word,
                search@,
            ));
        }
        let before = rope_string(&self.rope);
        let replaced = match crate::search::regex_replace_all(
            pat.as_str(),
            before.as_str(),
            replacement,
        ) {
            Ok(r) => r,
            Err(_) => {
                return Err(CoreError::Pattern);
            },
        };
        let r = self.update_content(&replaced, current_selection_set, last_visible_line)?;
        let after = rope_string(&self.rope);
        let modified = !before.eq(&after);
        Ok((modified, r.0, r.1))
    }

    /// Find-replace whose rewriting was delegated to an outside capability
    /// (for example the naming-convention-aware rewriter): fold the rewritten
    /// text back in as an undoable reconciliation transaction. The returned
    /// flag says whether the content actually changed.
    pub fn replace_with_rewritten(
        &mut self,
        rewritten: &str,
        current_selection_set: SelectionSet,
        last_visible_line: u16,
    ) -> (res: Result<
        (bool, SelectionSet, Vec<crate::position::ProtocolDiffEdit>),
        CoreError,
    >)
        requires
            old(self).wf(),
        ensures
            final(self).wf(),
            res is Ok,
            final(self).text() == rewritten@,
            match res {
                Ok(r) => r.0 == (rewritten@ != old(self).text()),
                Err(_) => false,
            },
            final(self).undo_tx_views() == old(self).undo_tx_views().push(
                crate::edit::inverse_views(
                    crate::diff::coalesced_edits(
                        crate::diff::diff_of(old(self).text(), rewritten@),
                    ),
                ),
            ),
            final(self).redo_count() == 0,
            final(self).batch_id_spec() != old(self).batch_id_spec(),
    {
        let before = rope_string(&self.rope);
        let r = self.update_content(rewritten, current_selection_set, last_visible_line)?;
        let after = rope_string(&self.rope);
        let modified = !before.eq(&after);
        Ok((modified, r.0, r.1))
    }

    /// Structural-mode find-replace: each match arrives as a byte position,
    /// a deleted character count and an inserted text, and is translated
    /// directly into an edit of an undoable transaction (no line diff).
    /// Fails, leaving the buffer untouched, when a position lies outside the
    /// text or the matches overlap.
    pub fn replace_with_structural_edits(
        &mut self,
        struct_edits: &Vec<StructEdit>,
        current_selection_set: SelectionSet,
        last_visible_line: u16,
    ) -> (res: Result<
        (bool, SelectionSet, Vec<crate::position::ProtocolDiffEdit>),
        CoreError,
    >)
        requires
            old(self).wf(),
        ensures
            final(self).wf(),
            res is Ok <==> struct_edits_ok(struct_edit_views(struct_edits@), old(self).text())
                && crate::edit::tx_applicable(
                translate_struct_edits(struct_edit_views(struct_edits@), old(self).text()),
                old(self).text().len() as int,
            ),
            match res {
                Ok(r) => {
                    let t = translate_struct_edits(
                        struct_edit_views(struct_edits@),
                        old(self).text(),
                    );
                    &&& final(self).text() == crate::edit::apply_edits(old(self).text(), t)
                    &&& final(self).undo_tx_views() == old(self).undo_tx_views().push(
                        crate::edit::inverse_views(t),
                    )
                    &&& final(self).redo_count() == 0
                    &&& final(self).batch_id_spec() != old(self).batch_id_spec()
                    &&& r.0 == (final(self).text() != old(self).text())
                },
                Err(e) => {
                    &&& (if !struct_edits_ok(struct_edit_views(struct_edits@), old(self).text()) {
                        e == CoreError::OutOfBounds
                    } else {
                        e == CoreError::InvalidTransaction
                    })
                    &&& final(self).text() == old(self).text()
                    &&& final(self).marks_view() == old(self).marks_view()
                    &&& final(self).diagnostics_view() == old(self).diagnostics_view()
                    &&& final(self).quickfix_view() == old(self).quickfix_view()
                    &&& final(self).highlighted_spans_view() == old(self).highlighted_spans_view()
                    &&& final(self).batch_id_spec() == old(self).batch_id_spec()
                    &&& final(self).undo_tx_views() == old(self).undo_tx_views()
                    &&& final(self).redo_tx_views() == old(self).redo_tx_views()
                },
            },
    {
        let ghost svs = struct_edit_views(struct_edits@);
        let mut edits: Vec<crate::edit::Edit> = Vec::new();
        let mut i: usize = 0;
        let n = struct_edits.len();
        let text_len = rope_len(&self.rope);
        proof {
            assert(forall|k: int| 0 <= k < n ==> (#[trigger] svs[k]) == (StructEditView {
                position_byte: struct_edits@[k].position_byte as int,
                deleted_length: struct_edits@[k].deleted_length as int,
                inserted: struct_edits@[k].inserted_text@,
            }));
            assert(crate::edit::views_of(edits@) =~= translate_struct_edits(
                svs.take(0),
                self.text(),
            ));
        }
        while i < n
            invariant
                i <= n == struct_edits@.len(),
                self == old(self),
                old(self).wf(),
                text_len == self.text().len(),
                svs == struct_edit_views(struct_edits@),
                svs.len() == n,
                forall|k: int| 0 <= k < n ==> (#[trigger] svs[k]) == (StructEditView {
                    position_byte: struct_edits@[k].position_byte as int,
                    deleted_length: struct_edits@[k].deleted_length as int,
                    inserted: struct_edits@[k].inserted_text@,
                }),
                forall|k: int| 0 <= k < i ==> struct_edit_ok(#[trigger] svs[k], self.text()),
                crate::edit::views_of(edits@) =~= translate_struct_edits(
                    svs.take(i as int),
                    self.text(),
                ),
            decreases n - i,
        {
            let se = &struct_edits[i];
            let start = match self.byte_to_char(se.position_byte) {
                Ok(c) => c,
                Err(_) => {
                    proof {
                        assert(!struct_edit_ok(svs[i as int], self.text()));
                    }
                    return Err(CoreError::OutOfBounds);
                },
            };
            proof {
                lemma_char_at_byte_bounds(self.text(), se.position_byte as int);
            }
            if se.deleted_length > text_len - start.0 {
                proof {
                    assert(!struct_edit_ok(svs[i as int], self.text()));
                }
                return Err(CoreError::OutOfBounds);
            }
            let end = CharIndex(start.0 + se.deleted_length);
            let range = CharIndexRange { start, end };
            let old_text = match self.slice(&range) {
                Ok(t) => t,
                Err(_) => {
                    proof {
                        assert(false);
                    }
                    return Err(CoreError::OutOfBounds);
                },
            };
            let ghost pre = edits@;
            edits.push(
                crate::edit::Edit { range, old: old_text, new: se.inserted_text.clone() },
            );
            proof {
                assert(crate::edit::views_of(edits@).drop_last() =~= crate::edit::views_of(pre));
                assert(crate::edit::views_of(edits@).last() == edits@[edits@.len() - 1].ev());
                assert(edits@[edits@.len() - 1].ev().lo == translate_struct_edit(
                    svs[i as int],
                    self.text(),
                ).lo);
                assert(edits@[edits@.len() - 1].ev().hi == translate_struct_edit(
                    svs[i as int],
                    self.text(),
                ).hi);
                assert(edits@[edits@.len() - 1].ev().del == translate_struct_edit(
                    svs[i as int],
                    self.text(),
                ).del);
                assert(edits@[edits@.len() - 1].ev().ins == translate_struct_edit(
                    svs[i as int],
                    self.text(),
                ).ins);
                assert(edits@[edits@.len() - 1].ev() == translate_struct_edit(
                    svs[i as int],
                    self.text(),
                ));
                assert(translate_struct_edits(svs.take(i + 1), self.text()).drop_last()
                    =~= translate_struct_edits(svs.take(i as int), self.text()));
                assert(translate_struct_edits(svs.take(i + 1), self.text()).last()
                    == translate_struct_edit(svs[i as int], self.text()));
                assert forall|k: int|
                    0 <= k < i + 1 implies #[trigger] crate::edit::views_of(edits@)[k]
                    == translate_struct_edits(svs.take(i + 1), self.text())[k] by {
                    assert(translate_struct_edits(svs.take(i + 1), self.text())[k]
                        == translate_struct_edit(svs.take(i + 1)[k], self.text()));
                    assert(crate::edit::views_of(edits@)[k] == edits@[k].ev());
                    if k < i {
                        assert(svs.take(i + 1)[k] == svs.take(i as int)[k]);
                        assert(translate_struct_edits(svs.take(i as int), self.text())[k]
                            == translate_struct_edit(svs.take(i as int)[k], self.text()));
                        assert(crate::edit::views_of(pre)[k] == pre[k].ev());
                        assert(edits@[k] == pre[k]);
                    }
                }
                assert(crate::edit::views_of(edits@) =~= translate_struct_edits(
                    svs.take(i + 1),
                    self.text(),
                ));
            }
            i = i + 1;
        }
        proof {
            assert(svs.take(n as int) =~= svs);
        }
        let tx = crate::edit::EditTransaction::from_edits(edits);
        let before = rope_string(&self.rope);
        let r = match self.apply_edit_transaction(
            &tx,
            current_selection_set,
            true,
            true,
            last_visible_line,
        ) {
            Ok(r) => r,
            Err(_) => {
                return Err(CoreError::InvalidTransaction);
            },
        };
        let after = rope_string(&self.rope);
        let modified = !before.eq(&after);
        Ok((modified, r.0, r.1))
    }

    /// The distinct words of the text, first occurrences first.
    pub fn words(&self) -> (res: Vec<String>)
        ensures
            string_views(res@) == crate::search::dedup_first(
                crate::search::word_texts(self.text()),
            ),
    {
        let content = rope_string(&self.rope);
        let matches = crate::search::find_word_matches(content.as_str());
        let ghost texts = crate::search::word_texts(self.text());
        let mut res: Vec<String> = Vec::new();
        let mut i: usize = 0;
        let n = matches.len();
        proof {
            assert(crate::search::match_views(matches@).len()
                == crate::search::word_match_list(self.text()).len());
            assert forall|k: int| 0 <= k < matches@.len() implies (#[trigger] texts[k])
                == matches@[k].1@ by {
                assert(crate::search::match_views(matches@)[k] == (
                    matches@[k].0 as int,
                    matches@[k].1@,
                ));
                assert(texts[k] == crate::search::word_match_list(self.text())[k].1);
            }
            assert(texts.take(0) =~= Seq::<Seq<char>>::empty());
            assert(string_views(res@) =~= crate::search::dedup_first(texts.take(0)));
        }
        while i < n
            invariant
                i <= n == matches@.len(),
                texts == crate::search::word_texts(self.text()),
                texts.len() == n,
                forall|k: int| 0 <= k < n ==> (#[trigger] texts[k]) == matches@[k].1@,
                string_views(res@) =~= crate::search::dedup_first(texts.take(i as int)),
            decreases n - i,
        {
            let w = &matches[i].1;
            let mut seen = false;
            let mut j: usize = 0;
            let rn = res.len();
            while j < rn
                invariant
                    j <= rn == res@.len(),
                    seen <==> exists|k: int| 0 <= k < j && (#[trigger] res@[k])@ == w@,
                decreases rn - j,
            {
                if !seen && res[j].eq(w) {
                    seen = true;
                    proof {
                        assert(res@[j as int]@ == w@);
                    }
                }
                j = j + 1;
            }
            let ghost pre = res@;
            proof {
                assert(texts.take(i + 1).drop_last() =~= texts.take(i as int));
                assert(texts.take(i + 1).last() == texts[i as int]);
                assert(seen <==> string_views(res@).contains(w@)) by {
                    if seen {
                        let k = choose|k: int|
                            0 <= k < res@.len() && (#[trigger] res@[k])@ == w@;
                        assert(string_views(res@)[k] == w@);
                    } else {
                        if string_views(res@).contains(w@) {
                            let k = choose|k: int|
                                0 <= k < string_views(res@).len() && (#[trigger] string_views(
                                res@,
                            )[k]) == w@;
                            assert(res@[k]@ == w@);
                        }
                    }
                }
            }
            if !seen {
                res.push(w.clone());
                proof {
                    assert(string_views(res@) =~= string_views(pre).push(w@));
                }
            }
            proof {
                assert(string_views(res@) =~= crate::search::dedup_first(texts.take(i + 1)));
            }
            i = i + 1;
        }
        proof {
            assert(texts.take(n as int) =~= texts);
        }
        res
    }

    /// The last word that starts strictly before the given character index,
    /// empty when there is none. Fails exactly when the index lies beyond the
    /// text.
    pub fn get_word_before_char_index(&self, char_index: CharIndex) -> (res: Result<
        String,
        CoreError,
    >)
        ensures
            res is Ok <==> char_index.0 <= self.text().len(),
            match res {
                Ok(s) => s@ == last_word_before(
                    crate::search::word_match_list(self.text()),
                    byte_index_of(self.text(), char_index.0 as int),
                ),
                Err(e) => e == CoreError::OutOfBounds,
            },
    {
        let cursor_byte = self.char_to_byte(char_index)?;
        let content = rope_string(&self.rope);
        let matches = crate::search::find_word_matches(content.as_str());
        let ghost ml = crate::search::word_match_list(self.text());
        proof {
            assert(crate::search::match_views(matches@).len() == ml.len());
            assert forall|j: int| 0 <= j < ml.len() implies (#[trigger] ml[j]) == (
                matches@[j].0 as int,
                matches@[j].1@,
            ) by {
                assert(crate::search::match_views(matches@)[j] == (
                    matches@[j].0 as int,
                    matches@[j].1@,
                ));
            }
            assert(last_word_before(ml, cursor_byte as int) == last_word_before(
                ml.take(matches@.len() as int),
                cursor_byte as int,
            )) by {
                assert(ml.take(matches@.len() as int) =~= ml);
            }
        }
        let mut k = matches.len();
        while k > 0
            invariant
                k <= matches@.len() == ml.len(),
                ml == crate::search::word_match_list(self.text()),
                char_index.0 <= self.text().len(),
                cursor_byte == byte_index_of(self.text(), char_index.0 as int),
                forall|j: int|
                    0 <= j < ml.len() ==> (#[trigger] ml[j]) == (
                    matches@[j].0 as int,
                    matches@[j].1@,
                ),
                last_word_before(ml, cursor_byte as int) == last_word_before(
                    ml.take(k as int),
                    cursor_byte as int,
                ),
            decreases k,
        {
            k = k - 1;
            proof {
                assert(ml.take(k + 1).drop_last() =~= ml.take(k as int));
                assert(ml.take(k + 1).last() == ml[k as int]);
            }
            if matches[k].0 < cursor_byte {
                return Ok(matches[k].1.clone());
            }
        }
        proof {
            assert(ml.take(0) =~= Seq::<(int, Seq<char>)>::empty());
        }
        Ok(String::new())
    }
}


/// The mathematical content of a [`Line`].
pub ghost struct LineView {
    pub line: int,
    pub column: int,
    pub content: Seq<char>,
}

pub open spec fn line_views(s: Seq<Line>) -> Seq<LineView> {
    s.map_values(
        |l: Line| LineView {
            line: l.line as int,
            column: l.origin_position.column as int,
            content: l.content@,
        },
    )
}

/// The breadcrumb at byte offset `b`: the line it lies on, the column of
/// that offset, and the line's text with trailing whitespace removed.
#[verifier::opaque]
pub open spec fn byte_entry(text: Seq<char>, b: int) -> LineView {
    let c = char_index_at_byte(text, b);
    let l = line_index_of(text, c);
    let ls = line_start(text, l);
    let le = line_start(text, l + 1);
    let tl = crate::char_class::trim_end_len(text.subrange(ls, le), le - ls);
    LineView { line: l, column: c - ls, content: text.subrange(ls, ls + tl) }
}

/// The breadcrumb of node `i`.
pub open spec fn line_entry(ns: Seq<crate::syntax_tree::SyntaxNode>, text: Seq<char>, i: int) -> LineView {
    byte_entry(text, ns[i].start_byte as int)
}

/// A breadcrumb survives collection when its trimmed line holds an
/// alphanumeric character.
#[verifier::opaque]
pub open spec fn entry_kept(v: LineView) -> bool {
    v.content.len() > 0 && exists|k: int|
        0 <= k < v.content.len() && crate::char_class::is_alnum(#[trigger] v.content[k])
}

/// Every node from `i` up through its ancestors starts within the text.
#[verifier::opaque]
pub open spec fn chain_ok(ns: Seq<crate::syntax_tree::SyntaxNode>, text: Seq<char>, i: int) -> bool
    decreases i,
{
    if 0 <= i < ns.len() {
        &&& ns[i].start_byte <= byte_index_of(text, text.len() as int)
        &&& match ns[i].parent {
            Some(p) => if 0 <= p < i {
                chain_ok(ns, text, p as int)
            } else {
                true
            },
            None => true,
        }
    } else {
        true
    }
}

/// The kept breadcrumbs of node `i` and its ancestors, bottom-up.
#[verifier::opaque]
pub open spec fn chain_lines(
    ns: Seq<crate::syntax_tree::SyntaxNode>,
    text: Seq<char>,
    i: int,
) -> Seq<LineView>
    decreases i,
{
    if 0 <= i < ns.len() {
        (if entry_kept(line_entry(ns, text, i)) {
            seq![line_entry(ns, text, i)]
        } else {
            Seq::<LineView>::empty()
        }) + match ns[i].parent {
            Some(p) => if 0 <= p < i {
                chain_lines(ns, text, p as int)
            } else {
                Seq::<LineView>::empty()
            },
            None => Seq::<LineView>::empty(),
        }
    } else {
        Seq::<LineView>::empty()
    }
}

/// Keep-first deduplication by column, as a value.
pub open spec fn dedup_col_spec(s: Seq<LineView>) -> Seq<LineView>
    decreases s.len(),
{
    if s.len() == 0 {
        Seq::<LineView>::empty()
    } else {
        let r = dedup_col_spec(s.drop_last());
        if exists|a: int| 0 <= a < r.len() && (#[trigger] r[a]).column == s.last().column {
            r
        } else {
            r.push(s.last())
        }
    }
}

/// Keep-first deduplication by content (the column check cannot fire on a
/// column-distinct input; it keeps the value total).
pub open spec fn dedup_content_spec(s: Seq<LineView>) -> Seq<LineView>
    decreases s.len(),
{
    if s.len() == 0 {
        Seq::<LineView>::empty()
    } else {
        let r = dedup_content_spec(s.drop_last());
        if exists|a: int|
            0 <= a < r.len() && ((#[trigger] r[a]).content == s.last().content || r[a].column
                == s.last().column) {
            r
        } else {
            r.push(s.last())
        }
    }
}

/// Reverse the list (to top-to-bottom order) and keep the breadcrumbs
/// strictly above line `ln`; the duplicate guards cannot fire on a
/// deduplicated input.
pub open spec fn above_filter(s: Seq<LineView>, k: int, ln: int) -> Seq<LineView>
    decreases k,
{
    if k <= 0 || k > s.len() {
        Seq::<LineView>::empty()
    } else {
        let r = above_filter(s, k - 1, ln);
        let l = s[s.len() - k];
        if l.line < ln && !(exists|a: int|
            0 <= a < r.len() && ((#[trigger] r[a]).column == l.column || r[a].content
                == l.content)) {
            r.push(l)
        } else {
            r
        }
    }
}

/// The whole ancestor-lines pipeline: collect the breadcrumbs of the nearest
/// node at/after the start of line `ln` and its ancestors, deduplicate by
/// column then by content, reverse, and keep the lines strictly above `ln`.
pub open spec fn parent_lines_spec(
    tv: Option<Seq<crate::syntax_tree::SyntaxNode>>,
    text: Seq<char>,
    ln: int,
) -> Seq<LineView> {
    match tv {
        Some(ns) => match crate::syntax_tree::nearest_from(
            ns,
            0,
            byte_index_of(text, line_start(text, ln)),
        ) {
            Some(i) => {
                let chain = dedup_content_spec(dedup_col_spec(chain_lines(ns, text, i)));
                above_filter(chain, chain.len() as int, ln)
            },
            None => Seq::<LineView>::empty(),
        },
        None => Seq::<LineView>::empty(),
    }
}

/// When the ancestor-lines query succeeds: the queried line exists and every
/// node on the walked chain starts within the text.
pub open spec fn parent_lines_ok(
    tv: Option<Seq<crate::syntax_tree::SyntaxNode>>,
    text: Seq<char>,
    ln: int,
) -> bool {
    &&& ln <= newline_count(text) + 1
    &&& match tv {
        Some(ns) => match crate::syntax_tree::nearest_from(
            ns,
            0,
            byte_index_of(text, line_start(text, ln)),
        ) {
            Some(i) => chain_ok(ns, text, i),
            None => true,
        },
        None => true,
    }
}

/// One breadcrumb of the ancestor-lines query: the position where an
/// ancestor node starts, its line number, and that line's content with
/// trailing whitespace removed.
#[derive(Debug)]
pub struct Line {
    pub origin_position: Position,
    pub line: usize,
    pub content: String,
}

/// Breadcrumb lines are listed bottom-up while collecting: line numbers never
/// increase.
pub open spec fn lines_nonincreasing(s: Seq<Line>) -> bool {
    forall|a: int, b: int| 0 <= a < b < s.len() ==> (#[trigger] s[a]).line >= (#[trigger] s[b]).line
}

pub open spec fn lines_nondecreasing(s: Seq<Line>) -> bool {
    forall|a: int, b: int| 0 <= a < b < s.len() ==> (#[trigger] s[a]).line <= (#[trigger] s[b]).line
}

/// A breadcrumb that survives filtering: it holds an alphanumeric character
/// and carries no trailing whitespace.
pub open spec fn line_kept(l: Line) -> bool {
    &&& exists|k: int| 0 <= k < l.content@.len() && crate::char_class::is_alnum(#[trigger] l.content@[k])
    &&& (l.content@.len() == 0 || !crate::char_class::is_space(l.content@[l.content@.len() - 1]))
}

pub open spec fn all_lines_kept(s: Seq<Line>) -> bool {
    forall|i: int| 0 <= i < s.len() ==> line_kept(#[trigger] s[i])
}

pub open spec fn cols_distinct(s: Seq<Line>) -> bool {
    forall|a: int, b: int|
        0 <= a < b < s.len() ==> (#[trigger] s[a]).origin_position.column != (
        #[trigger] s[b]).origin_position.column
}

pub open spec fn contents_distinct(s: Seq<Line>) -> bool {
    forall|a: int, b: int|
        0 <= a < b < s.len() ==> (#[trigger] s[a]).content@ != (#[trigger] s[b]).content@
}

/// Pushing a line extends the views by its view.
proof fn lemma_line_views_push(pre: Seq<Line>, post: Seq<Line>, entry: LineView)
    requires
        post.len() == pre.len() + 1,
        forall|k: int| 0 <= k < pre.len() ==> #[trigger] post[k] == pre[k],
        post[post.len() - 1].line as int == entry.line,
        post[post.len() - 1].origin_position.column as int == entry.column,
        post[post.len() - 1].content@ == entry.content,
    ensures
        line_views(post) == line_views(pre).push(entry),
{
    assert(line_views(post) =~= line_views(pre).push(entry));
}

/// Pushing a kept line that lies at or above the current bottom keeps the
/// collected list ordered and kept.
proof fn lemma_lines_push_props(pre: Seq<Line>, post: Seq<Line>, l: Line)
    requires
        post == pre.push(l),
        lines_nonincreasing(pre),
        all_lines_kept(pre),
        line_kept(l),
        pre.len() > 0 ==> pre[pre.len() - 1].line >= l.line,
    ensures
        lines_nonincreasing(post),
        all_lines_kept(post),
{
    assert(forall|k: int| 0 <= k < pre.len() ==> #[trigger] post[k] == pre[k]);
    assert(post[post.len() - 1] == l);
    assert forall|a: int, b: int| 0 <= a < b < post.len() implies (#[trigger] post[a]).line >= (
    #[trigger] post[b]).line by {
        if b < pre.len() {
        } else if a < pre.len() {
            assert(pre[a].line >= pre[pre.len() - 1].line);
        }
    }
    assert forall|k: int| 0 <= k < post.len() implies line_kept(#[trigger] post[k]) by {
        if k < pre.len() {
            assert(line_kept(pre[k]));
        }
    }
}

impl Line {
    fn duplicate(&self) -> (res: Line)
        ensures
            res.origin_position == self.origin_position,
            res.line == self.line,
            res.content@ == self.content@,
    {
        Line {
            origin_position: self.origin_position,
            line: self.line,
            content: self.content.clone(),
        }
    }
}

/// Keep-first deduplication by indentation column. Order and per-line
/// properties are preserved.
fn dedup_by_column(src: &Vec<Line>) -> (res: Vec<Line>)
    requires
        lines_nonincreasing(src@),
        all_lines_kept(src@),
    ensures
        line_views(res@) == dedup_col_spec(line_views(src@)),
        lines_nonincreasing(res@),
        all_lines_kept(res@),
        cols_distinct(res@),
{
    let mut res: Vec<Line> = Vec::new();
    let mut i: usize = 0;
    let n = src.len();
    proof {
        assert(line_views(res@) =~= dedup_col_spec(line_views(src@).take(0)));
    }
    while i < n
        invariant
            i <= n == src@.len(),
            lines_nonincreasing(src@),
            all_lines_kept(src@),
            lines_nonincreasing(res@),
            all_lines_kept(res@),
            cols_distinct(res@),
            line_views(res@) =~= dedup_col_spec(line_views(src@).take(i as int)),
            res@.len() > 0 && i < n ==> res@[res@.len() - 1].line >= src@[i as int].line,
        decreases n - i,
    {
        proof {
            assert(line_views(src@).take(i + 1).drop_last() =~= line_views(src@).take(i as int));
            assert(line_views(src@).take(i + 1).last() == line_views(src@)[i as int]);
            assert(line_views(src@)[i as int] == (LineView {
                line: src@[i as int].line as int,
                column: src@[i as int].origin_position.column as int,
                content: src@[i as int].content@,
            }));
        }
        let l = &src[i];
        let mut seen = false;
        let mut j: usize = 0;
        let rn = res.len();
        while j < rn
            invariant
                j <= rn == res@.len(),
                seen <==> exists|k: int|
                    0 <= k < j && (#[trigger] res@[k]).origin_position.column
                        == l.origin_position.column,
            decreases rn - j,
        {
            if !seen && res[j].origin_position.column == l.origin_position.column {
                seen = true;
                proof {
                    assert(res@[j as int].origin_position.column == l.origin_position.column);
                }
            }
            j = j + 1;
        }
        proof {
            assert(seen <==> exists|a: int|
                0 <= a < line_views(res@).len() && (#[trigger] line_views(res@)[a]).column
                    == src@[i as int].origin_position.column as int) by {
                if seen {
                    let a = choose|a: int|
                        0 <= a < res@.len() && (#[trigger] res@[a]).origin_position.column
                            == l.origin_position.column;
                    assert(line_views(res@)[a].column == src@[i as int].origin_position.column as int);
                } else {
                    if exists|a: int|
                        0 <= a < line_views(res@).len() && (#[trigger] line_views(res@)[a]).column
                            == src@[i as int].origin_position.column as int {
                        let a = choose|a: int|
                            0 <= a < line_views(res@).len() && (#[trigger] line_views(
                                res@,
                            )[a]).column == src@[i as int].origin_position.column as int;
                        assert(res@[a].origin_position.column == l.origin_position.column);
                    }
                }
            }
        }
        let ghost pre = res@;
        if !seen {
            res.push(l.duplicate());
            proof {
                assert(line_views(res@) =~= line_views(pre).push(line_views(src@)[i as int]));
            }
        }
        proof {
            assert(line_views(res@) =~= dedup_col_spec(line_views(src@).take(i + 1)));
        }
        i = i + 1;
    }
    proof {
        assert(line_views(src@).take(n as int) =~= line_views(src@));
    }
    res
}

/// Keep-first deduplication by trimmed content, on a list whose columns are
/// already pairwise distinct (so both distinctness properties hold of the
/// result).
fn dedup_by_content(src: &Vec<Line>) -> (res: Vec<Line>)
    requires
        lines_nonincreasing(src@),
        all_lines_kept(src@),
        cols_distinct(src@),
    ensures
        line_views(res@) == dedup_content_spec(line_views(src@)),
        lines_nonincreasing(res@),
        all_lines_kept(res@),
        cols_distinct(res@),
        contents_distinct(res@),
{
    let mut res: Vec<Line> = Vec::new();
    let mut i: usize = 0;
    let n = src.len();
    proof {
        assert(line_views(res@) =~= dedup_content_spec(line_views(src@).take(0)));
    }
    while i < n
        invariant
            i <= n == src@.len(),
            lines_nonincreasing(src@),
            all_lines_kept(src@),
            cols_distinct(src@),
            lines_nonincreasing(res@),
            all_lines_kept(res@),
            cols_distinct(res@),
            contents_distinct(res@),
            line_views(res@) =~= dedup_content_spec(line_views(src@).take(i as int)),
            res@.len() > 0 && i < n ==> res@[res@.len() - 1].line >= src@[i as int].line,
        decreases n - i,
    {
        proof {
            assert(line_views(src@).take(i + 1).drop_last() =~= line_views(src@).take(i as int));
            assert(line_views(src@).take(i + 1).last() == line_views(src@)[i as int]);
            assert(line_views(src@)[i as int] == (LineView {
                line: src@[i as int].line as int,
                column: src@[i as int].origin_position.column as int,
                content: src@[i as int].content@,
            }));
        }
        let l = &src[i];
        let mut seen = false;
        let mut j: usize = 0;
        let rn = res.len();
        while j < rn
            invariant
                j <= rn == res@.len(),
                seen <==> exists|k: int|
                    0 <= k < j && ((#[trigger] res@[k]).content@ == l.content@
                        || res@[k].origin_position.column == l.origin_position.column),
            decreases rn - j,
        {
            if !seen {
                if res[j].content.eq(&l.content) || res[j].origin_position.column
                    == l.origin_position.column {
                    seen = true;
                    proof {
                        assert(res@[j as int].content@ == l.content@
                            || res@[j as int].origin_position.column
                            == l.origin_position.column);
                    }
                }
            }
            j = j + 1;
        }
        proof {
            assert(seen <==> exists|a: int|
                0 <= a < line_views(res@).len() && ((#[trigger] line_views(res@)[a]).content
                    == src@[i as int].content@ || line_views(res@)[a].column
                    == src@[i as int].origin_position.column as int)) by {
                if seen {
                    let a = choose|a: int|
                        0 <= a < res@.len() && ((#[trigger] res@[a]).content@ == l.content@
                            || res@[a].origin_position.column == l.origin_position.column);
                    assert(line_views(res@)[a].content == src@[i as int].content@
                        || line_views(res@)[a].column == src@[i as int].origin_position.column as int);
                } else {
                    if exists|a: int|
                        0 <= a < line_views(res@).len() && ((#[trigger] line_views(res@)[a]).content
                            == src@[i as int].content@ || line_views(res@)[a].column
                            == src@[i as int].origin_position.column as int) {
                        let a = choose|a: int|
                            0 <= a < line_views(res@).len() && ((#[trigger] line_views(
                                res@,
                            )[a]).content == src@[i as int].content@ || line_views(res@)[a].column
                                == src@[i as int].origin_position.column as int);
                        assert(res@[a].content@ == l.content@ || res@[a].origin_position.column
                            == l.origin_position.column);
                    }
                }
            }
        }
        let ghost pre = res@;
        if !seen {
            res.push(l.duplicate());
            proof {
                assert(line_views(res@) =~= line_views(pre).push(line_views(src@)[i as int]));
            }
        }
        proof {
            assert(line_views(res@) =~= dedup_content_spec(line_views(src@).take(i + 1)));
        }
        i = i + 1;
    }
    proof {
        assert(line_views(src@).take(n as int) =~= line_views(src@));
    }
    res
}


/// The line on which the character containing byte `b` lies.
pub open spec fn line_of_byte(s: Seq<char>, b: int) -> int {
    line_index_of(s, char_index_at_byte(s, b))
}

impl Buffer {
    /// The first node in preorder whose start byte lies at or after the
    /// given character index — preorder visits ancestors first, so this is
    /// the outermost candidate. `None` when there is no tree, the index is
    /// out of bounds, or no node starts that late.
    pub fn get_nearest_node_after_char(&self, char_index: CharIndex) -> (res: Option<usize>)
        requires
            self.wf(),
        ensures
            match res {
                Some(i) => {
                    &&& char_index.0 <= self.text().len()
                    &&& self.tree_view() is Some
                    &&& Some(i as int) == crate::syntax_tree::nearest_from(
                        self.tree_view()->0,
                        0,
                        byte_index_of(self.text(), char_index.0 as int),
                    )
                    &&& i < self.tree_view()->0.len()
                    &&& self.tree_view()->0[i as int].start_byte >= byte_index_of(
                        self.text(),
                        char_index.0 as int,
                    )
                    &&& forall|j: int|
                        0 <= j < i ==> (#[trigger] self.tree_view()->0[j]).start_byte
                            < byte_index_of(self.text(), char_index.0 as int)
                },
                None => char_index.0 > self.text().len() || self.tree_view() is None
                    || crate::syntax_tree::nearest_from(
                    self.tree_view()->0,
                    0,
                    byte_index_of(self.text(), char_index.0 as int),
                ) is None,
            },
    {
        let byte = match self.char_to_byte(char_index) {
            Ok(b) => b,
            Err(_) => {
                return None;
            },
        };
        match &self.tree {
            Some(tree) => tree.nearest_node_at_or_after_byte(byte),
            None => None,
        }
    }

    /// The "current" node of a selection: the deepest node covering the
    /// selection's byte range (or `[start, start + 1)` in largest-end mode),
    /// promoted to the outermost ancestor with the same start byte (and, in
    /// non-largest-end mode, the same end byte) below the root — sibling
    /// navigation must act on the outermost node of a span, not an
    /// incidental child with the same boundary.
    pub fn get_current_node(&self, selection: &crate::selection::Selection, get_largest_end: bool)
        -> (res: Result<Option<usize>, CoreError>)
        requires
            self.wf(),
        ensures
            res == Ok::<Option<usize>, CoreError>(None) <==> self.tree_view() is None,
            res is Err <==> self.tree_view() is Some && (selection.range.start.0
                > self.text().len() || (get_largest_end && selection.range.start.0
                <= self.text().len() && byte_index_of(self.text(), selection.range.start.0 as int)
                == usize::MAX) || (!get_largest_end && selection.range.end.0
                > self.text().len())),
            match res {
                Ok(r) => match r {
                    Some(i) => self.tree_view() is Some && {
                        let ns = self.tree_view()->0;
                        let b1 = byte_index_of(self.text(), selection.range.start.0 as int);
                        let b2 = if get_largest_end {
                            b1 + 1
                        } else {
                            byte_index_of(self.text(), selection.range.end.0 as int)
                        };
                        let base = match crate::syntax_tree::deepest_covering_spec(ns, b1, b2) {
                            Some(j) => j,
                            None => 0,
                        };
                        i == crate::syntax_tree::promote_spec(ns, base, base, get_largest_end)
                            && i < ns.len()
                    },
                    None => self.tree_view() is None,
                },
                Err(e) => e == CoreError::OutOfBounds,
            },
    {
        let tree = match &self.tree {
            Some(t) => t,
            None => {
                return Ok(None);
            },
        };
        let start = self.char_to_byte(selection.range.start)?;
        let end: usize = if get_largest_end {
            if start == usize::MAX {
                return Err(CoreError::OutOfBounds);
            }
            start + 1
        } else {
            self.char_to_byte(selection.range.end)?
        };
        let base = match tree.deepest_covering(start, end) {
            Some(i) => i,
            None => 0,
        };
        let ghost ns = tree.nodes@;
        let mut cur = base;
        loop
            invariant
                tree.wf(),
                self.tree_view() == Some(tree.nodes@),
                ns == tree.nodes@,
                base < ns.len(),
                cur < ns.len(),
                start == byte_index_of(self.text(), selection.range.start.0 as int),
                selection.range.start.0 <= self.text().len(),
                get_largest_end ==> byte_index_of(self.text(), selection.range.start.0 as int)
                    != usize::MAX,
                !get_largest_end ==> selection.range.end.0 <= self.text().len(),
                end as int == if get_largest_end {
                    start + 1
                } else {
                    byte_index_of(self.text(), selection.range.end.0 as int)
                },
                match crate::syntax_tree::deepest_covering_spec(ns, start as int, end as int) {
                    Some(j) => j == base as int,
                    None => base == 0,
                },
                crate::syntax_tree::promote_spec(ns, base as int, base as int, get_largest_end)
                    == crate::syntax_tree::promote_spec(
                    ns,
                    base as int,
                    cur as int,
                    get_largest_end,
                ),
            decreases cur,
        {
            let node = tree.node(cur);
            match node.parent {
                Some(p) => {
                    proof {
                        assert(cur != 0) by {
                            assert(ns[0].parent is None);
                        }
                        assert((p as int) < cur as int);
                    }
                    let pn = tree.node(p);
                    let bn = tree.node(base);
                    if pn.start_byte == bn.start_byte && p != 0 && (get_largest_end
                        || bn.end_byte == pn.end_byte) {
                        proof {
                            assert(crate::syntax_tree::promote_spec(
                                ns,
                                base as int,
                                cur as int,
                                get_largest_end,
                            ) == crate::syntax_tree::promote_spec(
                                ns,
                                base as int,
                                p as int,
                                get_largest_end,
                            ));
                        }
                        cur = p;
                    } else {
                        proof {
                            assert(crate::syntax_tree::promote_spec(
                                ns,
                                base as int,
                                cur as int,
                                get_largest_end,
                            ) == cur as int);
                        }
                        return Ok(Some(cur));
                    }
                },
                None => {
                    proof {
                        assert(crate::syntax_tree::promote_spec(
                            ns,
                            base as int,
                            cur as int,
                            get_largest_end,
                        ) == base as int);
                    }
                    return Ok(Some(base));
                },
            }
        }
    }

    /// True exactly when the deepest node covering the range (an end whose
    /// character index is out of bounds falls back to byte 0) reports a
    /// parse error beneath it.
    pub fn has_syntax_error_at(&self, range: CharIndexRange) -> (res: bool)
        requires
            self.wf(),
        ensures
            res == ({
                let b1 = if range.start.0 <= self.text().len() {
                    byte_index_of(self.text(), range.start.0 as int)
                } else {
                    0
                };
                let b2 = if range.end.0 <= self.text().len() {
                    byte_index_of(self.text(), range.end.0 as int)
                } else {
                    0
                };
                match self.tree_view() {
                    Some(ns) => match crate::syntax_tree::deepest_covering_spec(ns, b1, b2) {
                        Some(i) => ns[i].has_error,
                        None => false,
                    },
                    None => false,
                }
            }),
    {
        let b1 = match self.char_to_byte(range.start) {
            Ok(b) => b,
            Err(_) => 0,
        };
        let b2 = match self.char_to_byte(range.end) {
            Ok(b) => b,
            Err(_) => 0,
        };
        match &self.tree {
            Some(tree) => match tree.deepest_covering(b1, b2) {
                Some(i) => tree.node(i).has_error,
                None => false,
            },
            None => false,
        }
    }

    /// True exactly when the given character range is the exact extent of a
    /// tree node (the deepest node covering its byte range).
    pub fn given_range_is_node(&self, range: &CharIndexRange) -> (res: bool)
        requires
            self.wf(),
        ensures
            res == (range.start.0 <= self.text().len() && range.end.0 <= self.text().len()
                && self.tree_view() is Some && {
                let ns = self.tree_view()->0;
                let b1 = byte_index_of(self.text(), range.start.0 as int);
                let b2 = byte_index_of(self.text(), range.end.0 as int);
                match crate::syntax_tree::deepest_covering_spec(ns, b1, b2) {
                    Some(i) => ns[i].start_byte == b1 && ns[i].end_byte == b2,
                    None => false,
                }
            }),
    {
        let b1 = match self.char_to_byte(range.start) {
            Ok(b) => b,
            Err(_) => {
                return false;
            },
        };
        let b2 = match self.char_to_byte(range.end) {
            Ok(b) => b,
            Err(_) => {
                return false;
            },
        };
        match &self.tree {
            Some(tree) => match tree.deepest_covering(b1, b2) {
                Some(i) => {
                    let n = tree.node(i);
                    n.start_byte == b1 && n.end_byte == b2
                },
                None => false,
            },
            None => false,
        }
    }

    /// The breadcrumb of the line holding byte `start_byte`: its position and
    /// the trimmed line text, or `None` when the trimmed line holds no
    /// alphanumeric character.
    #[verifier::rlimit(100)]
    fn breadcrumb_at(&self, start_byte: usize) -> (res: Option<Line>)
        requires
            self.wf(),
            start_byte <= byte_index_of(self.text(), self.text().len() as int),
        ensures
            res is Some <==> entry_kept(byte_entry(self.text(), start_byte as int)),
            match res {
                Some(line) => {
                    let entry = byte_entry(self.text(), start_byte as int);
                    &&& line.line as int == entry.line
                    &&& line.origin_position.column as int == entry.column
                    &&& line.content@ == entry.content
                    &&& line_kept(line)
                },
                None => true,
            },
    {
        let start_char = CharIndex(rope_byte_to_char(&self.rope, start_byte));
        proof {
            lemma_char_at_byte_bounds(self.text(), start_byte as int);
        }
        let position = match self.char_to_position(start_char) {
            Ok(p) => p,
            Err(_) => {
                proof {
                    assert(false);
                }
                return None;
            },
        };
        proof {
            lemma_newline_count_nonneg(self.text());
            lemma_newline_count_nonneg(self.text().take(start_char.0 as int));
            lemma_line_index_monotone(self.text(), start_char.0 as int, self.text().len() as int);
            assert(self.text().take(self.text().len() as int) =~= self.text());
        }
        let raw_lines = rope_len_lines(&self.rope);
        proof {
            assert(position.line < raw_lines);
        }
        let ls = rope_line_to_char(&self.rope, position.line);
        let le = rope_line_to_char(&self.rope, position.line + 1);
        proof {
            lemma_line_start_monotone(self.text(), position.line as int, position.line as int + 1);
            lemma_line_start_bounds(self.text(), position.line as int + 1);
        }
        // trim trailing whitespace of the line, in place in the rope
        let mut tlen: usize = le - ls;
        let mut stop = false;
        while !stop
            invariant
                ls <= le <= self.text().len(),
                ls + tlen <= le,
                crate::char_class::trim_end_len(
                    self.text().subrange(ls as int, le as int),
                    (le - ls) as int,
                ) == crate::char_class::trim_end_len(
                    self.text().subrange(ls as int, le as int),
                    tlen as int,
                ),
                stop && tlen > 0 ==> !crate::char_class::is_space(self.text()[ls + tlen - 1]),
            decreases tlen + (if stop {
                0int
            } else {
                1int
            }),
        {
            if tlen == 0 {
                stop = true;
            } else {
                let c = rope_char_at(&self.rope, ls + tlen - 1);
                proof {
                    assert(self.text().subrange(ls as int, le as int)[tlen - 1] == self.text()[ls
                        + tlen - 1]);
                }
                if crate::char_class::char_is_whitespace(c) {
                    tlen = tlen - 1;
                } else {
                    stop = true;
                }
            }
        }
        proof {
            // the loop's length is exactly the trimmed length
            if tlen > 0 {
                assert(self.text().subrange(ls as int, le as int)[tlen - 1] == self.text()[ls
                    + tlen - 1]);
            }
            assert(crate::char_class::trim_end_len(
                self.text().subrange(ls as int, le as int),
                tlen as int,
            ) == tlen as int);
        }
        // keep the line only if it holds an alphanumeric character
        let mut has_alnum = false;
        let mut sk: usize = 0;
        while sk < tlen
            invariant
                ls <= le <= self.text().len(),
                ls + tlen <= le,
                sk <= tlen,
                has_alnum <==> exists|k: int|
                    0 <= k < sk && crate::char_class::is_alnum(#[trigger] self.text()[ls + k]),
            decreases tlen - sk,
        {
            let c = rope_char_at(&self.rope, ls + sk);
            if !has_alnum && crate::char_class::char_is_alphanumeric(c) {
                has_alnum = true;
                proof {
                    assert(crate::char_class::is_alnum(self.text()[ls + sk]));
                }
            }
            sk = sk + 1;
        }
        let ghost entry = byte_entry(self.text(), start_byte as int);
        proof {
            reveal(byte_entry);
            assert(entry.line == position.line as int);
            assert(entry.column == position.column as int);
            assert(entry.content =~= self.text().subrange(ls as int, ls + tlen));
        }
        if has_alnum && tlen > 0 {
            let content = crate::rope_store::rope_slice(&self.rope, ls, ls + tlen);
            let kept = Line { origin_position: position, line: position.line, content };
            proof {
                reveal(entry_kept);
                assert(line_kept(kept)) by {
                    let k = choose|k: int|
                        0 <= k < tlen && crate::char_class::is_alnum(
                            #[trigger] self.text()[ls + k],
                        );
                    assert(kept.content@[k] == self.text()[ls + k]);
                    assert(!crate::char_class::is_space(kept.content@[tlen - 1]));
                }
                assert(entry_kept(entry)) by {
                    reveal(entry_kept);
                    let k = choose|k: int|
                        0 <= k < tlen && crate::char_class::is_alnum(
                            #[trigger] self.text()[ls + k],
                        );
                    assert(entry.content[k] == self.text()[ls + k]);
                }
            }
            Some(kept)
        } else {
            proof {
                assert(!entry_kept(entry)) by {
                    reveal(entry_kept);
                    if tlen > 0 {
                        if entry_kept(entry) {
                            let k = choose|k: int|
                                0 <= k < entry.content.len() && crate::char_class::is_alnum(
                                    #[trigger] entry.content[k],
                                );
                            assert(entry.content[k] == self.text()[ls + k]);
                            assert(crate::char_class::is_alnum(self.text()[ls + k]));
                        }
                    }
                }
            }
            None
        }
    }

    /// Walk from the nearest node at/after the start of `line_number` up
    /// through its ancestors, collecting each ancestor's starting line (with
    /// trailing whitespace trimmed and lines without alphanumeric content
    /// skipped); bottom-up, so line numbers never increase. Fails exactly
    /// when a node on the chain starts beyond the text.
    #[verifier::rlimit(100)]
    #[verifier::spinoff_prover]
    fn collect_parent_lines(&self, start_node: usize) -> (res: Result<Vec<Line>, CoreError>)
        requires
            self.wf(),
            self.tree_view() is Some,
            start_node < self.tree_view()->0.len(),
        ensures
            res is Ok <==> chain_ok(self.tree_view()->0, self.text(), start_node as int),
            match res {
                Ok(ls) => {
                    &&& line_views(ls@) == chain_lines(
                        self.tree_view()->0,
                        self.text(),
                        start_node as int,
                    )
                    &&& lines_nonincreasing(ls@)
                    &&& all_lines_kept(ls@)
                },
                Err(e) => e == CoreError::OutOfBounds,
            },
    {
        let tree = match &self.tree {
            Some(t) => t,
            None => {
                return Err(CoreError::OutOfBounds);
            },
        };
        let ghost ns = tree.nodes@;
        let total_bytes = rope_len_bytes(&self.rope);
        let mut res: Vec<Line> = Vec::new();
        let mut cur = start_node;
        let mut done = false;
        proof {
            assert(line_views(res@) =~= Seq::<LineView>::empty());
        }
        while !done
            invariant
                self.wf(),
                tree.wf(),
                self.tree_view() == Some(tree.nodes@),
                ns == tree.nodes@,
                cur < ns.len(),
                total_bytes == byte_index_of(self.text(), self.text().len() as int),
                lines_nonincreasing(res@),
                all_lines_kept(res@),
                !done ==> (res@.len() > 0 ==> res@[res@.len() - 1].line >= line_of_byte(
                    self.text(),
                    ns[cur as int].start_byte as int,
                )),
                done ==> chain_ok(ns, self.text(), start_node as int),
                !done ==> (chain_ok(ns, self.text(), start_node as int) == chain_ok(
                    ns,
                    self.text(),
                    cur as int,
                )),
                chain_lines(ns, self.text(), start_node as int) =~= line_views(res@) + (if done {
                    Seq::<LineView>::empty()
                } else {
                    chain_lines(ns, self.text(), cur as int)
                }),
            decreases (if done {
                0int
            } else {
                1int
            }), cur,
        {
            let node = tree.node(cur);
            if node.start_byte > total_bytes {
                proof {
                    assert(!chain_ok(ns, self.text(), cur as int)) by {
                        reveal(chain_ok);
                    }
                }
                return Err(CoreError::OutOfBounds);
            }
            let ghost entry = line_entry(ns, self.text(), cur as int);
            proof {
                assert(entry.line == line_of_byte(self.text(), node.start_byte as int)) by {
                    reveal(byte_entry);
                }
            }
            let ghost pre_res = res@;
            match self.breadcrumb_at(node.start_byte) {
                Some(line) => {
                    let ghost pushed = line;
                    res.push(line);
                    proof {
                        lemma_line_views_push(pre_res, res@, entry);
                        lemma_lines_push_props(pre_res, res@, pushed);
                    }
                },
                None => {},
            }
            // climb to the parent
            match node.parent {
                Some(p) => {
                    proof {
                        assert(cur != 0) by {
                            assert(ns[0].parent is None);
                        }
                        assert(0 <= p < cur);
                        assert(ns[p as int].start_byte <= ns[cur as int].start_byte);
                        crate::text_model::lemma_char_at_byte_monotone(
                            self.text(),
                            ns[p as int].start_byte as int,
                            ns[cur as int].start_byte as int,
                        );
                        lemma_char_at_byte_bounds(self.text(), ns[cur as int].start_byte as int);
                        lemma_char_at_byte_bounds(self.text(), ns[p as int].start_byte as int);
                        lemma_line_index_monotone(
                            self.text(),
                            char_index_at_byte(self.text(), ns[p as int].start_byte as int),
                            char_index_at_byte(self.text(), ns[cur as int].start_byte as int),
                        );
                        assert(chain_lines(ns, self.text(), cur as int) =~= (if entry_kept(entry) {
                            seq![entry]
                        } else {
                            Seq::<LineView>::empty()
                        }) + chain_lines(ns, self.text(), p as int)) by {
                            reveal(chain_lines);
                        }
                        assert(chain_ok(ns, self.text(), cur as int) == chain_ok(
                            ns,
                            self.text(),
                            p as int,
                        )) by {
                            reveal(chain_ok);
                        }
                        assert(chain_lines(ns, self.text(), start_node as int) =~= line_views(res@)
                            + chain_lines(ns, self.text(), p as int));
                    }
                    cur = p;
                },
                None => {
                    proof {
                        assert(chain_lines(ns, self.text(), cur as int) =~= (if entry_kept(entry) {
                            seq![entry]
                        } else {
                            Seq::<LineView>::empty()
                        })) by {
                            reveal(chain_lines);
                        }
                        assert(chain_ok(ns, self.text(), cur as int)) by {
                            reveal(chain_ok);
                        }
                        assert(chain_lines(ns, self.text(), start_node as int) =~= line_views(
                            res@,
                        ));
                    }
                    done = true;
                },
            }
        }
        proof {
            assert(chain_lines(ns, self.text(), start_node as int) =~= line_views(res@));
        }
        Ok(res)
    }

    /// Ancestor-line breadcrumbs for a line: the starting lines of the
    /// syntax ancestors enclosing the line's first node, top-to-bottom,
    /// skipping lines without alphanumeric content, trimmed of trailing
    /// whitespace, deduplicated by indentation column and by content, and
    /// restricted to lines strictly above `line_number`.
    pub fn get_parent_lines(&self, line_number: usize) -> (res: Result<Vec<Line>, CoreError>)
        requires
            self.wf(),
        ensures
            res is Ok <==> parent_lines_ok(self.tree_view(), self.text(), line_number as int),
            match res {
                Ok(ls) => {
                    &&& line_views(ls@) == parent_lines_spec(
                        self.tree_view(),
                        self.text(),
                        line_number as int,
                    )
                    &&& lines_nondecreasing(ls@)
                    &&& forall|i: int| 0 <= i < ls@.len() ==> (#[trigger] ls@[i]).line < line_number
                    &&& cols_distinct(ls@)
                    &&& contents_distinct(ls@)
                    &&& all_lines_kept(ls@)
                },
                Err(e) => e == CoreError::OutOfBounds,
            },
    {
        let char_index = self.line_to_char(line_number)?;
        proof {
            lemma_line_start_bounds(self.text(), line_number as int);
        }
        let start_node = match self.get_nearest_node_after_char(char_index) {
            Some(i) => i,
            None => {
                let empty: Vec<Line> = Vec::new();
                proof {
                    assert(char_index.0 <= self.text().len());
                    assert(parent_lines_ok(self.tree_view(), self.text(), line_number as int));
                    assert(parent_lines_spec(self.tree_view(), self.text(), line_number as int)
                        =~= Seq::<LineView>::empty());
                    assert(line_views(empty@) =~= Seq::<LineView>::empty());
                    assert(lines_nondecreasing(empty@));
                    assert(cols_distinct(empty@));
                    assert(contents_distinct(empty@));
                    assert(all_lines_kept(empty@));
                }
                return Ok(empty);
            },
        };
        let chain = self.collect_parent_lines(start_node)?;
        let by_col = dedup_by_column(&chain);
        let by_content = dedup_by_content(&by_col);
        let ghost cv = line_views(by_content@);
        // reverse to top-to-bottom order and keep only lines strictly above
        // the queried line
        let mut res: Vec<Line> = Vec::new();
        let n = by_content.len();
        let mut k = n;
        proof {
            assert(line_views(res@) =~= above_filter(cv, 0, line_number as int));
        }
        while k > 0
            invariant
                k <= n == by_content@.len(),
                cv == line_views(by_content@),
                cv.len() == n,
                lines_nonincreasing(by_content@),
                all_lines_kept(by_content@),
                cols_distinct(by_content@),
                contents_distinct(by_content@),
                lines_nondecreasing(res@),
                all_lines_kept(res@),
                cols_distinct(res@),
                contents_distinct(res@),
                line_views(res@) =~= above_filter(cv, (n - k) as int, line_number as int),
                forall|i: int| 0 <= i < res@.len() ==> (#[trigger] res@[i]).line < line_number,
                res@.len() > 0 && k > 0 ==> res@[res@.len() - 1].line <= by_content@[k
                    - 1].line,
            decreases k,
        {
            k = k - 1;
            let l = &by_content[k];
            proof {
                assert(cv[k as int] == (LineView {
                    line: by_content@[k as int].line as int,
                    column: by_content@[k as int].origin_position.column as int,
                    content: by_content@[k as int].content@,
                }));
            }
            let mut dup_col = false;
            let mut dup_content = false;
            if l.line < line_number {
                let mut j: usize = 0;
                let rn = res.len();
                while j < rn
                    invariant
                        j <= rn == res@.len(),
                        k < n == by_content@.len(),
                        l == &by_content@[k as int],
                        dup_col <==> exists|a: int|
                            0 <= a < j && (#[trigger] res@[a]).origin_position.column
                                == l.origin_position.column,
                        dup_content <==> exists|a: int|
                            0 <= a < j && (#[trigger] res@[a]).content@ == l.content@,
                    decreases rn - j,
                {
                    if !dup_col && res[j].origin_position.column == l.origin_position.column {
                        dup_col = true;
                        proof {
                            assert(res@[j as int].origin_position.column
                                == l.origin_position.column);
                        }
                    }
                    if !dup_content && res[j].content.eq(&l.content) {
                        dup_content = true;
                        proof {
                            assert(res@[j as int].content@ == l.content@);
                        }
                    }
                    j = j + 1;
                }
                proof {
                    assert((dup_col || dup_content) <==> exists|a: int|
                        0 <= a < line_views(res@).len() && ((#[trigger] line_views(
                            res@,
                        )[a]).column == cv[k as int].column || line_views(res@)[a].content
                            == cv[k as int].content)) by {
                        if dup_col || dup_content {
                            if dup_col {
                                let a = choose|a: int|
                                    0 <= a < res@.len() && (
                                    #[trigger] res@[a]).origin_position.column
                                        == l.origin_position.column;
                                assert(line_views(res@)[a].column == cv[k as int].column);
                            } else {
                                let a = choose|a: int|
                                    0 <= a < res@.len() && (#[trigger] res@[a]).content@
                                        == l.content@;
                                assert(line_views(res@)[a].content == cv[k as int].content);
                            }
                        } else {
                            if exists|a: int|
                                0 <= a < line_views(res@).len() && ((#[trigger] line_views(
                                    res@,
                                )[a]).column == cv[k as int].column || line_views(res@)[a].content
                                    == cv[k as int].content) {
                                let a = choose|a: int|
                                    0 <= a < line_views(res@).len() && ((#[trigger] line_views(
                                        res@,
                                    )[a]).column == cv[k as int].column || line_views(
                                        res@,
                                    )[a].content == cv[k as int].content);
                                assert(res@[a].origin_position.column == l.origin_position.column
                                    || res@[a].content@ == l.content@);
                            }
                        }
                    }
                }
                let ghost pre = res@;
                if !dup_col && !dup_content {
                    res.push(l.duplicate());
                    proof {
                        assert(line_views(res@) =~= line_views(pre).push(cv[k as int]));
                    }
                }
            }
            proof {
                assert(line_views(res@) =~= above_filter(
                    cv,
                    (n - k) as int,
                    line_number as int,
                ));
            }
        }
        proof {
            assert(cv =~= dedup_content_spec(
                dedup_col_spec(
                    chain_lines(self.tree_view()->0, self.text(), start_node as int),
                ),
            ));
            assert(Some(start_node as int) == crate::syntax_tree::nearest_from(
                self.tree_view()->0,
                0,
                byte_index_of(self.text(), line_start(self.text(), line_number as int)),
            ));
            assert(line_views(res@) =~= above_filter(cv, n as int, line_number as int));
            assert(line_views(res@) =~= parent_lines_spec(
                self.tree_view(),
                self.text(),
                line_number as int,
            ));
        }
        Ok(res)
    }
}

/// Linear membership test for ranges.
fn contains_range(v: &Vec<CharIndexRange>, x: CharIndexRange) -> (res: bool)
    ensures
        res == v@.contains(x),
{
    let mut i: usize = 0;
    let n = v.len();
    while i < n
        invariant
            i <= n == v@.len(),
            forall|k: int| 0 <= k < i ==> v@[k] != x,
        decreases n - i,
    {
        if v[i] == x {
            proof {
                assert(v@.contains(x));
            }
            return true;
        }
        i = i + 1;
    }
    false
}

impl Buffer {
    /// The byte range spanned by a line range `[start_line, end_line)`: from
    /// the first byte of the start line to the end (before the newline) of
    /// the line preceding `end_line`.
    pub fn line_range_to_byte_range(&self, start_line: usize, end_line: usize) -> (res: Result<
        (usize, usize),
        CoreError,
    >)
        ensures
            res is Ok <==> start_line <= newline_count(self.text()) && (end_line == 0
                || end_line - 1 <= newline_count(self.text())),
            match res {
                Ok(r) => {
                    let last = if end_line > 0 {
                        end_line - 1
                    } else {
                        0
                    };
                    let e = byte_index_of(self.text(), line_start(self.text(), last as int + 1));
                    &&& r.0 == byte_index_of(self.text(), line_start(self.text(), start_line as int))
                    &&& r.1 == if e > 0 {
                        e - 1
                    } else {
                        0
                    }
                },
                Err(e) => e == CoreError::OutOfBounds,
            },
    {
        let a = self.line_to_byte_range(start_line)?;
        let last = if end_line > 0 {
            end_line - 1
        } else {
            0
        };
        let b = self.line_to_byte_range(last)?;
        Ok((a.start, b.end))
    }
}

/// A text ending in a newline has that newline as its final line break.
proof fn lemma_last_newline_counts(s: Seq<char>)
    requires
        s.len() > 0,
        s[s.len() - 1] == '\n',
    ensures
        newline_count(s) >= 1,
    decreases s.len(),
{
    if s.len() == 1 {
        assert(s.skip(1).len() == 0);
        assert(newline_count(s.skip(1)) == 0);
    } else {
        assert(s.skip(1)[s.skip(1).len() - 1] == s[s.len() - 1]);
        lemma_last_newline_counts(s.skip(1));
        crate::text_model::lemma_newline_count_nonneg(s.skip(1));
    }
}

/// The visible line count lies between 0 and the raw line count.
proof fn lemma_vis_line_count_bounds(s: Seq<char>)
    ensures
        0 <= visible_line_count(s) <= newline_count(s) + 1,
{
    lemma_newline_count_nonneg(s);
    if s.len() > 0 && s[s.len() - 1] == '\n' {
        lemma_last_newline_counts(s);
    }
}

/// A byte offset within the text maps to a character within it.
proof fn lemma_char_at_byte_bounds(s: Seq<char>, b: int)
    ensures
        0 <= char_index_at_byte(s, b) <= s.len(),
    decreases s.len(),
{
    if s.len() > 0 && !(b < crate::text_model::char_size(s[0])) {
        lemma_char_at_byte_bounds(s.skip(1), b - crate::text_model::char_size(s[0]));
    }
}

/// A clamped position maps into the text.
proof fn lemma_pos_to_char_in_bounds(s: Seq<char>, line: int, column: int)
    requires
        line >= 0,
        column >= 0,
    ensures
        0 <= pos_to_char_spec(s, line, column) <= s.len(),
{
    lemma_newline_count_nonneg(s);
    lemma_vis_line_count_bounds(s);
    let lc = if line <= visible_line_count(s) {
        line
    } else {
        visible_line_count(s)
    };
    lemma_line_start_bounds(s, lc);
    lemma_line_start_bounds(s, lc + 1);
    lemma_line_start_monotone(s, lc, lc + 1);
}

} // verus!
