//! Core engine of a structural terminal text editor: the in-memory text of a
//! file, its syntax tree, and the transactional edit/undo/redo machinery that
//! keeps ranges, marks, diagnostics and highlight spans consistent as the text
//! changes.

pub mod buffer;
pub mod char_class;
pub mod char_index_range;
pub mod diff;
pub mod edit;
pub mod selection;
pub mod suggestive_editor;
pub mod syntax_highlight;
pub mod syntax_tree;
pub mod laws;
pub mod position;
pub mod rope_store;
pub mod search;
pub mod text_model;

