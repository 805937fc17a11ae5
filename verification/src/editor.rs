//! [`EditorCore`]: the document plus cursor, selection, undo history,
//! bookmarks and column block — the single source of truth of an editor
//! page. Scrolling, fonts and drawing live in the view layer.

use vstd::prelude::*;
use crate::document::{Document, LineEnding, LineV, lines_wf, text_of};
use crate::lineset::{LineSet, sorted_strict};

verus! {

/// A cursor position: logical line and character column, both from 0.
#[derive(Debug, Clone, Copy, PartialEq, Eq, Structural)]
pub struct CursorPos {
    pub line: usize,
    pub col: usize,
}

impl Default for CursorPos {
    fn default() -> (r: CursorPos)
        ensures
            r == (CursorPos { line: 0, col: 0 }),
    {
        CursorPos { line: 0, col: 0 }
    }
}

/// `a` is at or before `b` in document order.
pub open spec fn pos_le(a: CursorPos, b: CursorPos) -> bool {
    a.line < b.line || (a.line == b.line && a.col <= b.col)
}

/// A column (rectangular) selection: `anchor` is where the drag started,
/// `head` the opposite corner.
#[derive(Debug, Clone, Copy, PartialEq, Eq, Structural)]
pub struct BlockSel {
    pub anchor: CursorPos,
    pub head: CursorPos,
}

/// A cursor besides the main one, with its own selection anchor.
#[derive(Debug, Clone, Copy, PartialEq, Eq, Structural)]
pub struct ExtraCursor {
    pub cursor: CursorPos,
    pub anchor: Option<CursorPos>,
}

/// A drag of the selection inside the document: whether the pointer has
/// moved far enough to make it a drag, and where the text would land.
#[derive(Debug, Clone, Copy, PartialEq, Eq, Structural)]
pub struct DndState {
    pub started: bool,
    pub drop: CursorPos,
}

/// The timing state of the caret's blink and of the scrollbar's fade, in
/// milliseconds of the caller's clock.
#[derive(Debug, Clone, Copy, PartialEq, Eq, Structural)]
pub struct CaretClock {
    /// Blink phase: the caret is drawn when on.
    pub blink_on: bool,
    /// When the phase last flipped (or was due).
    pub last_blink_at: Option<u64>,
    /// When the caret last moved or text was typed.
    pub last_activity: Option<u64>,
    /// When the view was last scrolled.
    pub sb_activity: Option<u64>,
}

/// Why an editor action was refused.
#[derive(Debug, Clone, Copy, PartialEq, Eq, Structural)]
pub enum EditErr {
    /// Neither a selection nor a word under the cursor to search for.
    CursorNotOnWord,
    /// The extra cursors are at their limit (the limit is carried).
    ExtraCursorCap(usize),
    /// No free occurrence left anywhere in the document.
    NoMoreMatch,
    /// A text tool needs selected text.
    NoSelection,
}

/// The rectangle of a block: (first row, last row, first column, last
/// column), all inclusive.
pub open spec fn block_rect(b: BlockSel) -> (int, int, int, int) {
    let r0 = if b.anchor.line <= b.head.line { b.anchor.line } else { b.head.line };
    let r1 = if b.anchor.line <= b.head.line { b.head.line } else { b.anchor.line };
    let c0 = if b.anchor.col <= b.head.col { b.anchor.col } else { b.head.col };
    let c1 = if b.anchor.col <= b.head.col { b.head.col } else { b.anchor.col };
    (r0 as int, r1 as int, c0 as int, c1 as int)
}

/// A block whose rows and columns are both zero wide.
pub open spec fn block_is_empty(b: BlockSel) -> bool {
    let (r0, r1, c0, c1) = block_rect(b);
    r0 == r1 && c0 == c1
}

impl BlockSel {
    /// The normalized rectangle `(r0, r1, c0, c1)`, `r0 <= r1`, `c0 <= c1`.
    pub fn normalized(&self) -> (r: (usize, usize, usize, usize))
        ensures
            (r.0 as int, r.1 as int, r.2 as int, r.3 as int) == block_rect(*self),
    {
        let (r0, r1) = if self.anchor.line <= self.head.line {
            (self.anchor.line, self.head.line)
        } else {
            (self.head.line, self.anchor.line)
        };
        let (c0, c1) = if self.anchor.col <= self.head.col {
            (self.anchor.col, self.head.col)
        } else {
            (self.head.col, self.anchor.col)
        };
        (r0, r1, c0, c1)
    }

    /// Both the row and the column span are zero wide (a plain click).
    pub fn is_empty(&self) -> (r: bool)
        ensures
            r == block_is_empty(*self),
    {
        let (r0, r1, c0, c1) = self.normalized();
        r0 == r1 && c0 == c1
    }
}

/// Cursor motions.
#[derive(Debug, Clone, Copy, PartialEq, Eq, Structural)]
pub enum Motion {
    Left,
    Right,
    Up,
    Down,
    Home,
    End,
    LogicalHome,
    LogicalEnd,
    PageUp,
    PageDown,
    DocStart,
    DocEnd,
    WordLeft,
    WordRight,
}

/// Case conversion direction.
#[derive(Debug, Clone, Copy, PartialEq, Eq, Structural)]
pub enum CaseKind {
    Upper,
    Lower,
    /// Each word's first character upper case, the rest lower case.
    Title,
}

/// Which white space to trim from lines.
#[derive(Debug, Clone, Copy, PartialEq, Eq, Structural)]
pub enum TrimMode {
    Leading,
    Trailing,
    Both,
}

/// Line sort direction (code-point order, case sensitive, stable).
#[derive(Debug, Clone, Copy, PartialEq, Eq, Structural)]
pub enum SortOrder {
    Ascending,
    Descending,
}

/// Tab/space conversion kind.
#[derive(Debug, Clone, Copy, PartialEq, Eq, Structural)]
pub enum TabSpaceKind {
    LeadingTabsToSpaces,
    AllTabsToSpaces,
    LeadingSpacesToTabs,
}

/// Which lines count as blank.
#[derive(Debug, Clone, Copy, PartialEq, Eq, Structural)]
pub enum BlankKind {
    /// Lines with no character.
    Empty,
    /// Lines of white space only.
    Whitespace,
}

/// The verdict on an IME commit event.
#[derive(Debug, PartialEq, Eq)]
pub enum ImeCommit {
    /// The editor has no focus: not consumed.
    Ignored,
    /// Consumed; `Some` is the text to insert (an empty commit only clears
    /// the preedit).
    Consumed(Option<String>),
}

/// Editing operations dispatched by the application.
#[derive(Debug, PartialEq, Eq)]
pub enum EditOp {
    InsertText(String),
    Backspace,
    Delete,
    SelectAll,
    Undo,
    Redo,
    Motion(Motion, bool),
    DeleteLines,
    DuplicateLines,
    MoveLinesUp,
    MoveLinesDown,
    ConvertCase(CaseKind),
    TrimLines(TrimMode),
    SortLines(SortOrder),
    RemoveDuplicateLines,
    ConvertTabsSpaces(TabSpaceKind),
    MergeLines,
    SplitLine,
    DeleteEmptyLines(BlankKind),
    ToggleBookmark,
    BookmarkNext,
    BookmarkPrev,
    BookmarksClearAll,
    RemoveBookmarkedLines,
    CopyBookmarkedLines,
    JumpToMatchingBracket,
    InsertDateTime,
    ToggleLineComment,
    CancelBlock,
    Enter,
    TabKey(bool),
}

/// Undo history entries keep at most this many states.
pub const MAX_UNDO: usize = 512;

/// A saved state: document, cursor, selection anchor and bookmarks.
#[derive(Debug)]
pub struct Snapshot {
    pub doc: Document,
    pub cursor: CursorPos,
    pub anchor: Option<CursorPos>,
    pub bookmarks: LineSet,
}

/// A saved state as a value.
pub struct SnapV {
    pub lines: Seq<LineV>,
    pub ending: LineEnding,
    pub cursor: CursorPos,
    pub anchor: Option<CursorPos>,
    pub marks: Seq<usize>,
}

pub open spec fn snap_v(s: Snapshot) -> SnapV {
    SnapV { lines: s.doc.lv(), ending: s.doc.ending, cursor: s.cursor, anchor: s.anchor, marks: s.bookmarks.items@ }
}

/// A position that is on a line and within its text.
pub open spec fn pos_in(ls: Seq<LineV>, p: CursorPos) -> bool {
    p.line < ls.len() && p.col <= ls[p.line as int].body.len()
}

/// A saved state that can be restored.
pub open spec fn snap_ok(s: SnapV) -> bool {
    &&& lines_wf(s.lines)
    &&& text_of(s.lines).len() < usize::MAX
    &&& pos_in(s.lines, s.cursor)
    &&& (s.anchor matches Some(a) ==> pos_in(s.lines, a))
    &&& sorted_strict(s.marks)
}

/// What an edit of the text leaves alone: the overwrite, focus,
/// composition, drag and read-only state, the syntax, the caret clock, the
/// view switches and the saved baseline.
pub open spec fn edit_frame(pre: &EditorCore, post: &EditorCore) -> bool {
    &&& post.overwrite == pre.overwrite
    &&& post.focused == pre.focused
    &&& post.preedit == pre.preedit
    &&& post.dnd == pre.dnd
    &&& post.syntax_name == pre.syntax_name
    &&& post.read_only == pre.read_only
    &&& post.caret == pre.caret
    &&& post.show_whitespace == pre.show_whitespace
    &&& post.show_line_endings == pre.show_line_endings
    &&& post.indent_guides == pre.indent_guides
    &&& post.edge_column == pre.edge_column
    &&& post.wrap_enabled == pre.wrap_enabled
    &&& post.saved_baseline == pre.saved_baseline
}

/// `s` with `x` pushed, the oldest entry dropped beyond [`MAX_UNDO`].
pub open spec fn push_capped(s: Seq<SnapV>, x: SnapV) -> Seq<SnapV> {
    if s.len() + 1 > MAX_UNDO { s.push(x).drop_first() } else { s.push(x) }
}

/// The editor state.
#[derive(Debug)]
pub struct EditorCore {
    pub doc: Document,
    pub cursor: CursorPos,
    /// Selection anchor; the selection is anchor..cursor (either order).
    pub anchor: Option<CursorPos>,
    pub undo_stack: Vec<Snapshot>,
    pub redo_stack: Vec<Snapshot>,
    /// Inside a run of single-character insertions: the offset where the
    /// last one ended. Such insertions share one undo entry.
    pub typing_run: Option<usize>,
    /// The document as last known on disk.
    pub saved_baseline: Option<Document>,
    /// Whether the editor holds keyboard focus (IME events are filtered by
    /// it).
    pub focused: bool,
    /// IME composition string.
    pub preedit: Option<String>,
    /// Overwrite mode: a typed character replaces the one under the cursor.
    pub overwrite: bool,
    /// Bookmarked lines.
    pub bookmarks: LineSet,
    /// Column block selection (exclusive with the normal selection).
    pub block_sel: Option<BlockSel>,
    pub block_dragging: bool,
    /// Soft wrap is on (column blocks are refused while it is).
    pub wrap_enabled: bool,
    /// High-water mark of the widest line, in display columns.
    pub max_line_cols: usize,
    /// Set by edits that may shrink lines: the mark may be too high.
    pub max_cols_stale: bool,
    pub show_whitespace: bool,
    pub show_line_endings: bool,
    pub indent_guides: bool,
    pub edge_column: u32,
    /// Name of the syntax of the document (drives the line-comment prefix).
    pub syntax_name: Option<String>,
    /// Cursors besides the main one, in document order, one per position.
    pub extra_cursors: Vec<ExtraCursor>,
    /// A drag of the selection in progress.
    pub dnd: Option<DndState>,
    /// The document may not be edited by dragging.
    pub read_only: bool,
    /// Caret blinking and scrollbar fading.
    pub caret: CaretClock,
}

impl Default for EditorCore {
    /// A fresh editor on an empty document (see [`EditorCore::new`]).
    fn default() -> (e: EditorCore)
        ensures
            e.wf(),
            e.doc.text() == Seq::<char>::empty(),
            e.cursor == (CursorPos { line: 0, col: 0 }),
            e.anchor is None,
            e.undo_view() == Seq::<SnapV>::empty(),
            e.redo_view() == Seq::<SnapV>::empty(),
            e.bookmarks.set() == Set::<usize>::empty(),
            e.focused,
            e.saved_baseline matches Some(d) && d.text() == Seq::<char>::empty(),
    {
        EditorCore::new()
    }
}

impl EditorCore {
    /// The current state as a saved-state value.
    pub open spec fn snap(&self) -> SnapV {
        SnapV { lines: self.doc.lv(), ending: self.doc.ending, cursor: self.cursor, anchor: self.anchor, marks: self.bookmarks.items@ }
    }

    pub open spec fn undo_view(&self) -> Seq<SnapV> {
        self.undo_stack@.map_values(|s: Snapshot| snap_v(s))
    }

    pub open spec fn redo_view(&self) -> Seq<SnapV> {
        self.redo_stack@.map_values(|s: Snapshot| snap_v(s))
    }

    /// Lines of the document.
    pub open spec fn ls(&self) -> Seq<LineV> {
        self.doc.lv()
    }

    /// A well-formed editor: a well-formed document, cursor and anchor on
    /// it, a block on existing lines, bookmarks sorted, restorable history
    /// of at most [`MAX_UNDO`] entries (undo and redo together).
    pub open spec fn wf(&self) -> bool {
        &&& self.doc.wf()
        &&& pos_in(self.ls(), self.cursor)
        &&& (self.anchor matches Some(a) ==> pos_in(self.ls(), a))
        &&& self.bookmarks.wf()
        &&& forall|i: int| 0 <= i < self.undo_stack@.len() ==> #[trigger] snap_ok(snap_v(self.undo_stack@[i]))
        &&& forall|i: int| 0 <= i < self.redo_stack@.len() ==> #[trigger] snap_ok(snap_v(self.redo_stack@[i]))
        &&& (self.saved_baseline matches Some(d) ==> d.wf())
        &&& self.undo_stack@.len() + self.redo_stack@.len() <= MAX_UNDO
    }

    /// Everything but the history and the typing run is as in `o`.
    pub open spec fn same_state(&self, o: &EditorCore) -> bool {
        &&& self.doc.lv() == o.doc.lv()
        &&& self.doc.ending == o.doc.ending
        &&& self.cursor == o.cursor
        &&& self.anchor == o.anchor
        &&& self.bookmarks.items@ == o.bookmarks.items@
    }

    /// A fresh editor on an empty document.
    pub fn new() -> (e: EditorCore)
        ensures
            e.wf(),
            e.doc.text() == Seq::<char>::empty(),
            e.cursor == (CursorPos { line: 0, col: 0 }),
            e.anchor is None,
            e.undo_view() == Seq::<SnapV>::empty(),
            e.redo_view() == Seq::<SnapV>::empty(),
            e.bookmarks.set() == Set::<usize>::empty(),
            e.focused,
            e.saved_baseline matches Some(d) && d.text() == Seq::<char>::empty(),
    {
        let e = EditorCore {
            doc: Document::new(),
            cursor: CursorPos { line: 0, col: 0 },
            anchor: None,
            undo_stack: Vec::new(),
            redo_stack: Vec::new(),
            typing_run: None,
            saved_baseline: Some(Document::new()),
            focused: true,
            preedit: None,
            overwrite: false,
            bookmarks: LineSet::new(),
            block_sel: None,
            block_dragging: false,
            wrap_enabled: false,
            max_line_cols: 0,
            max_cols_stale: false,
            show_whitespace: false,
            show_line_endings: false,
            indent_guides: false,
            edge_column: 0,
            syntax_name: None,
            extra_cursors: Vec::new(),
            dnd: None,
            read_only: false,
            caret: CaretClock { blink_on: true, last_blink_at: None, last_activity: None, sb_activity: None },
        };
        proof {
            reveal(lines_wf);
            assert(e.undo_view() =~= Seq::<SnapV>::empty());
            assert(e.redo_view() =~= Seq::<SnapV>::empty());
        }
        e
    }

    /// Ends the current typing run (the next character starts a new undo
    /// entry).
    pub fn break_typing(&mut self)
        ensures
            *final(self) == (EditorCore { typing_run: None, ..*old(self) }),
            final(self).typing_run is None,
            final(self).same_state(old(self)),
            final(self).undo_stack@ == old(self).undo_stack@,
            final(self).redo_stack@ == old(self).redo_stack@,
            final(self).block_sel == old(self).block_sel,
            final(self).saved_baseline == old(self).saved_baseline,
    {
        self.typing_run = None;
    }

    /// Pushes the current state onto the undo history (dropping the oldest
    /// beyond [`MAX_UNDO`]), clears the redo history, ends the typing run.
    pub fn snapshot(&mut self)
        requires
            old(self).wf(),
        ensures
            final(self).wf(),
            final(self).undo_view() == push_capped(old(self).undo_view(), old(self).snap()),
            final(self).redo_view() == Seq::<SnapV>::empty(),
            final(self).typing_run is None,
            final(self).max_cols_stale,
            final(self).same_state(old(self)),
            final(self).doc == old(self).doc,
            final(self).cursor == old(self).cursor,
            final(self).anchor == old(self).anchor,
            final(self).bookmarks == old(self).bookmarks,
            final(self).block_sel == old(self).block_sel,
            final(self).saved_baseline == old(self).saved_baseline,
            final(self).focused == old(self).focused,
            final(self).overwrite == old(self).overwrite,
            final(self).syntax_name == old(self).syntax_name,
            final(self).extra_cursors == old(self).extra_cursors,
            final(self).dnd == old(self).dnd,
            edit_frame(old(self), final(self)),
            final(self).max_line_cols == old(self).max_line_cols,
            final(self).block_dragging == old(self).block_dragging,
    {
        self.typing_run = None;
        self.max_cols_stale = true;
        let snap = Snapshot {
            doc: self.doc.clone_doc(),
            cursor: self.cursor,
            anchor: self.anchor,
            bookmarks: self.bookmarks.clone_set(),
        };
        let ghost sv = snap_v(snap);
        let ghost before = self.undo_view();
        self.undo_stack.push(snap);
        proof {
            assert(self.undo_view() =~= before.push(sv));
        }
        if self.undo_stack.len() > MAX_UNDO {
            self.undo_stack.remove(0);
            proof {
                assert(self.undo_view() =~= before.push(sv).drop_first());
            }
        }
        self.redo_stack = Vec::new();
        proof {
            assert(self.redo_view() =~= Seq::<SnapV>::empty());
            assert(sv == old(self).snap());
            assert forall|i: int| 0 <= i < self.undo_stack@.len() implies #[trigger] snap_ok(snap_v(self.undo_stack@[i])) by {
                assert(self.undo_view()[i] == snap_v(self.undo_stack@[i]));
                if old(self).undo_stack@.len() + 1 > MAX_UNDO {
                    if i + 1 < old(self).undo_stack@.len() {
                        assert(snap_v(self.undo_stack@[i]) == snap_v(old(self).undo_stack@[i + 1]));
                    }
                } else if i < old(self).undo_stack@.len() {
                    assert(snap_v(self.undo_stack@[i]) == snap_v(old(self).undo_stack@[i]));
                }
            }
        }
    }
}

} // verus!
