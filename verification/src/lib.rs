//! Editpad editor core: the text buffer, cursor and selection state, undo
//! history, line operations, bookmarks, column blocks and the pure helpers
//! around them (display columns, tab conversion, link detection).

use vstd::prelude::*;

pub mod strs;
pub mod metrics;
pub mod tabs;
pub mod links;
pub mod document;
pub mod lineset;
pub mod marks;
pub mod editor;
pub mod undo;
pub mod edit;
pub mod motion;
pub mod lineblock;
pub mod linesplit;
pub mod lineops;
pub mod sorting;
pub mod comments;
pub mod mergesplit;
pub mod lineedit;
pub mod casing;
pub mod bookmarks;
pub mod colblock;
pub mod clock;
pub mod editing;
pub mod sampling;
pub mod autosave;
pub mod numbering;
pub mod brackets;
pub mod cursors;
pub mod multiedit;
pub mod nextmatch;
pub mod dnd;
pub mod backup;
pub mod caret;
pub mod tools;
pub mod fonts;
pub mod indent;

verus! {

} // verus!
