//! An editor with auto-completion: a buffer-backed editor, an optional
//! completion dropdown, an optional info panel, and the decision logic that
//! routes key events between them while inserting. The terminal event source
//! and the surrounding rendering are external; events arrive here already
//! reduced to plain values, and each decision says what the shell must do.

use vstd::prelude::*;

verus! {

use crate::buffer::Buffer;
use crate::position::Position;
use vstd::string::StringExecFns;

/// An edit attached to a completion item, addressed by positions.
#[derive(Debug)]
pub struct PositionalEdit {
    pub start: Position,
    pub end: Position,
    pub new_text: String,
}

/// One completion suggestion.
#[derive(Debug)]
pub struct CompletionItem {
    pub label: String,
    pub documentation: Option<String>,
    pub edit: Option<PositionalEdit>,
}

impl CompletionItem {
    pub fn from_label(label: String) -> (res: CompletionItem)
        ensures
            res.label@ == label@,
            res.documentation is None,
            res.edit is None,
    {
        CompletionItem { label, documentation: None, edit: None }
    }

    pub fn label(&self) -> (res: &String)
        ensures
            res@ == self.label@,
    {
        &self.label
    }

    pub fn info(&self) -> (res: &Option<String>)
        ensures
            res == &self.documentation,
    {
        &self.documentation
    }

    fn duplicate(&self) -> (res: CompletionItem)
        ensures
            res.label@ == self.label@,
            res.documentation is Some <==> self.documentation is Some,
            res.edit is Some <==> self.edit is Some,
            res.edit is Some ==> res.edit->0.start == self.edit->0.start && res.edit->0.end
                == self.edit->0.end && res.edit->0.new_text@ == self.edit->0.new_text@,
    {
        CompletionItem {
            label: self.label.clone(),
            documentation: match &self.documentation {
                Some(d) => Some(d.clone()),
                None => None,
            },
            edit: match &self.edit {
                Some(e) => Some(
                    PositionalEdit { start: e.start, end: e.end, new_text: e.new_text.clone() },
                ),
                None => None,
            },
        }
    }
}

/// A completion response: the items and the characters that re-trigger
/// completion.
#[derive(Debug)]
pub struct Completion {
    pub items: Vec<CompletionItem>,
    pub trigger_characters: Vec<String>,
}

/// The completion dropdown: its items and the index of the highlighted one.
pub struct Dropdown {
    pub title: String,
    pub items: Vec<CompletionItem>,
    pub current_index: usize,
    pub filter: String,
}

impl Dropdown {
    pub fn new(title: String) -> (res: Dropdown)
        ensures
            res.items@.len() == 0,
            res.current_index == 0,
            res.title == title,
    {
        Dropdown { title, items: Vec::new(), current_index: 0, filter: String::new() }
    }

    /// Highlight the next item, stopping at the last.
    pub fn next_item(&mut self)
        ensures
            final(self).items@ == old(self).items@,
            final(self).current_index == if old(self).current_index + 1 < old(
                self,
            ).items@.len() {
                old(self).current_index + 1
            } else if old(self).items@.len() > 0 {
                old(self).items@.len() - 1
            } else {
                0
            },
    {
        if self.items.len() > 0 {
            if self.current_index < self.items.len() - 1 {
                self.current_index = self.current_index + 1;
            } else {
                self.current_index = self.items.len() - 1;
            }
        } else {
            self.current_index = 0;
        }
    }

    /// Highlight the previous item, stopping at the first.
    pub fn previous_item(&mut self)
        ensures
            final(self).items@ == old(self).items@,
            final(self).current_index == if old(self).current_index > 0 {
                old(self).current_index - 1
            } else {
                0
            },
    {
        if self.current_index > 0 {
            self.current_index = self.current_index - 1;
        }
    }

    /// Replace the items, highlighting the first.
    pub fn set_items(&mut self, items: Vec<CompletionItem>)
        ensures
            final(self).items@ == items@,
            final(self).current_index == 0,
            final(self).title == old(self).title,
    {
        self.items = items;
        self.current_index = 0;
    }

    /// Record the filter typed so far, resetting the highlight.
    pub fn set_filter(&mut self, filter: String)
        ensures
            final(self).items@ == old(self).items@,
            final(self).filter@ == filter@,
            final(self).current_index == 0,
    {
        self.filter = filter;
        self.current_index = 0;
    }

    /// The highlighted item, if any.
    pub fn current_item(&self) -> (res: Option<CompletionItem>)
        ensures
            res is Some <==> self.current_index < self.items@.len(),
            match res {
                Some(item) => {
                    let stored = self.items@[self.current_index as int];
                    &&& item.label@ == stored.label@
                    &&& (item.edit is Some <==> stored.edit is Some)
                    &&& (item.edit is Some ==> item.edit->0.start == stored.edit->0.start
                        && item.edit->0.end == stored.edit->0.end && item.edit->0.new_text@
                        == stored.edit->0.new_text@)
                },
                None => true,
            },
    {
        if self.current_index < self.items.len() {
            Some(self.items[self.current_index].duplicate())
        } else {
            None
        }
    }
}

/// The editor's input mode.
#[derive(Clone, Copy, PartialEq, Eq, Structural, Debug)]
pub enum Mode {
    Normal,
    Insert,
}

/// A buffer with an input mode and a cursor — the part of the editor the
/// suggestion logic decides over.
pub struct Editor {
    pub buffer: Buffer,
    pub mode: Mode,
    pub cursor: Position,
}

impl Editor {
    pub fn from_buffer(buffer: Buffer) -> (res: Editor)
        ensures
            res.mode == Mode::Normal,
            res.buffer == buffer,
            res.cursor == (Position { line: 0usize, column: 0usize }),
    {
        Editor { buffer, mode: Mode::Normal, cursor: Position { line: 0, column: 0 } }
    }

    /// Move the cursor (the shell tracks it as the user edits).
    pub fn set_cursor(&mut self, cursor: Position)
        ensures
            final(self).cursor == cursor,
            final(self).buffer == old(self).buffer,
            final(self).mode == old(self).mode,
    {
        self.cursor = cursor;
    }

    pub fn enter_insert_mode(&mut self)
        ensures
            final(self).mode == Mode::Insert,
            final(self).buffer == old(self).buffer,
            final(self).cursor == old(self).cursor,
    {
        self.mode = Mode::Insert;
    }

    pub fn enter_normal_mode(&mut self)
        ensures
            final(self).mode == Mode::Normal,
            final(self).buffer == old(self).buffer,
            final(self).cursor == old(self).cursor,
    {
        self.mode = Mode::Normal;
    }
}

/// A key event, already reduced from the terminal event source to the cases
/// the suggestion logic distinguishes.
#[derive(Clone, Copy, PartialEq, Eq, Structural, Debug)]
pub enum KeyInput {
    MoveDown,
    MoveUp,
    Confirm,
    Dismiss,
    Other,
}

/// What the surrounding shell must do after a key event was decided here.
pub enum SuggestiveEditorAction {
    /// The dropdown highlight moved; nothing else to do.
    DropdownNavigated,
    /// The completion was accepted: apply the item to the editor (its edit
    /// when it has one, else replace the word before the cursor with its
    /// label).
    CompletionAccepted(CompletionItem),
    /// The dropdown was dismissed.
    DropdownClosed,
    /// The event is the editor's to handle; afterwards the shell refreshes
    /// the dropdown filter and requests fresh completions.
    ForwardToEditor,
}

/// Editor with auto-complete.
pub struct SuggestiveEditor {
    pub editor: Editor,
    pub info_panel: Option<String>,
    pub dropdown: Option<Dropdown>,
    pub trigger_characters: Vec<String>,
}

impl SuggestiveEditor {
    pub fn from_buffer(buffer: Buffer) -> (res: SuggestiveEditor)
        ensures
            res.editor.mode == Mode::Normal,
            res.editor.buffer == buffer,
            res.info_panel is None,
            !res.dropdown_opened_spec(),
            res.trigger_characters@.len() == 0,
    {
        SuggestiveEditor {
            editor: Editor::from_buffer(buffer),
            info_panel: None,
            dropdown: None,
            trigger_characters: Vec::new(),
        }
    }

    pub open spec fn dropdown_opened_spec(self) -> bool {
        self.dropdown is Some
    }

    pub fn editor(&self) -> (res: &Editor)
        ensures
            res == &self.editor,
    {
        &self.editor
    }

    pub fn editor_mut(&mut self) -> &mut Editor {
        &mut self.editor
    }

    /// Show `info` in the info panel.
    pub fn show_info(&mut self, info: String)
        ensures
            final(self).info_panel == Some(info),
            final(self).editor == old(self).editor,
            final(self).dropdown_opened_spec() == old(self).dropdown_opened_spec(),
    {
        self.info_panel = Some(info);
    }

    /// Install a completion response: open the dropdown (titled as the
    /// completion view if it was closed), fill it with the items, and
    /// remember the trigger characters.
    pub fn set_completion(&mut self, completion: Completion)
        ensures
            final(self).dropdown_opened_spec(),
            final(self).dropdown->0.items@ == completion.items@,
            final(self).dropdown->0.current_index == 0,
            final(self).dropdown->0.title@ == if old(self).dropdown is Some {
                old(self).dropdown->0.title@
            } else {
                "Completion"@
            },
            final(self).trigger_characters@ == completion.trigger_characters@,
            final(self).editor == old(self).editor,
    {
        let mut dropdown = match self.dropdown.take() {
            Some(d) => d,
            None => Dropdown::new(String::from_str("Completion")),
        };
        dropdown.set_items(completion.items);
        self.dropdown = Some(dropdown);
        self.trigger_characters = completion.trigger_characters;
    }

    pub fn enter_insert_mode(&mut self)
        ensures
            final(self).editor.mode == Mode::Insert,
            final(self).editor.buffer == old(self).editor.buffer,
            final(self).dropdown == old(self).dropdown,
    {
        self.editor.enter_insert_mode();
    }

    /// The highlighted completion item, if the dropdown is open and
    /// non-empty.
    pub fn current_item(&mut self) -> (res: Option<CompletionItem>)
        ensures
            *final(self) == *old(self),
            res is Some <==> (old(self).dropdown is Some && old(self).dropdown->0.current_index
                < old(self).dropdown->0.items@.len()),
            match res {
                Some(item) => {
                    let stored = old(self).dropdown->0.items@[old(
                        self,
                    ).dropdown->0.current_index as int];
                    &&& item.label@ == stored.label@
                    &&& (item.edit is Some <==> stored.edit is Some)
                    &&& (item.edit is Some ==> item.edit->0.start == stored.edit->0.start
                        && item.edit->0.end == stored.edit->0.end && item.edit->0.new_text@
                        == stored.edit->0.new_text@)
                },
                None => true,
            },
    {
        match &self.dropdown {
            Some(d) => d.current_item(),
            None => None,
        }
    }

    pub fn dropdown_opened(&self) -> (res: bool)
        ensures
            res == self.dropdown_opened_spec(),
    {
        self.dropdown.is_some()
    }

    /// Decide what a key event does while the dropdown may be open: in
    /// insert mode, navigation keys move the dropdown highlight, confirm
    /// accepts the highlighted item and closes the dropdown, dismiss closes
    /// it and leaves insert mode; everything else — and every event outside
    /// insert mode — is the editor's to handle.
    pub fn handle_key_input(&mut self, event: KeyInput) -> (res: SuggestiveEditorAction)
        ensures
            old(self).editor.mode != Mode::Insert ==> res is ForwardToEditor && *final(self)
                == *old(self),
            old(self).editor.mode == Mode::Insert && old(self).dropdown is None ==> res
                is ForwardToEditor && *final(self) == *old(self),
            old(self).editor.mode == Mode::Insert && old(self).dropdown is Some ==> match event {
                KeyInput::MoveDown | KeyInput::MoveUp => res is DropdownNavigated && final(self).dropdown is Some && final(self).editor == old(self).editor,
                KeyInput::Confirm => {
                    &&& (res is CompletionAccepted <==> old(self).dropdown->0.current_index < old(self).dropdown->0.items@.len())
                    &&& (res is CompletionAccepted || res is DropdownClosed)
                    &&& final(self).dropdown is None
                    &&& final(self).editor == old(self).editor
                    &&& match res {
                        SuggestiveEditorAction::CompletionAccepted(item) => item.label@ == old(self).dropdown->0.items@[old(self).dropdown->0.current_index as int].label@,
                        _ => true,
                    }
                },
                KeyInput::Dismiss => res is DropdownClosed && final(self).dropdown is None
                    && final(self).editor.mode == Mode::Normal && final(self).editor.buffer
                    == old(self).editor.buffer && final(self).editor.cursor == old(self).editor.cursor,
                KeyInput::Other => res is ForwardToEditor && *final(self) == *old(self),
            },
    {
        if !matches!(self.editor.mode, Mode::Insert) {
            return SuggestiveEditorAction::ForwardToEditor;
        }
        let has_dropdown = self.dropdown.is_some();
        if !has_dropdown {
            return SuggestiveEditorAction::ForwardToEditor;
        }
        match event {
            KeyInput::MoveDown => {
                let mut dropdown = match self.dropdown.take() {
                    Some(d) => d,
                    None => Dropdown::new(String::new()),
                };
                dropdown.next_item();
                self.dropdown = Some(dropdown);
                SuggestiveEditorAction::DropdownNavigated
            },
            KeyInput::MoveUp => {
                let mut dropdown = match self.dropdown.take() {
                    Some(d) => d,
                    None => Dropdown::new(String::new()),
                };
                dropdown.previous_item();
                self.dropdown = Some(dropdown);
                SuggestiveEditorAction::DropdownNavigated
            },
            KeyInput::Confirm => {
                let item = self.current_item();
                self.dropdown = None;
                match item {
                    Some(item) => SuggestiveEditorAction::CompletionAccepted(item),
                    None => SuggestiveEditorAction::DropdownClosed,
                }
            },
            KeyInput::Dismiss => {
                self.dropdown = None;
                self.editor.enter_normal_mode();
                SuggestiveEditorAction::DropdownClosed
            },
            KeyInput::Other => SuggestiveEditorAction::ForwardToEditor,
        }
    }
}

} // verus!
