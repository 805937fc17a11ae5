//! Enter with indentation, word deletion, IME events, view switches and
//! whole-document replacement.

use vstd::prelude::*;
use crate::document::{Document, LineV, lines_wf, line_text, lemma_line_in_text, lemma_text_of_len_lines};
use crate::editor::{EditorCore, CursorPos, ImeCommit, push_capped, SnapV, pos_in};
use crate::edit::max_cols_over;
use crate::lineset::LineSet;
use crate::motion::{word_target, lemma_word_target_in};
use crate::strs::{chars_of, string_of};

verus! {

/// The number of spaces and tabs `s` starts with.
pub open spec fn indent_run(s: Seq<char>) -> nat
    decreases s.len(),
{
    if s.len() > 0 && (s[0] == ' ' || s[0] == '\t') { 1 + indent_run(s.drop_first()) } else { 0 }
}

/// The indentation run is part of the text.
proof fn lemma_indent_run(s: Seq<char>)
    ensures
        indent_run(s) <= s.len(),
        forall|j: int| 0 <= j < indent_run(s) ==> (#[trigger] s[j] == ' ' || s[j] == '\t'),
        indent_run(s) < s.len() ==> !(s[indent_run(s) as int] == ' ' || s[indent_run(s) as int] == '\t'),
    decreases s.len(),
{
    if s.len() > 0 && (s[0] == ' ' || s[0] == '\t') {
        lemma_indent_run(s.drop_first());
        assert forall|j: int| 0 <= j < indent_run(s) implies (#[trigger] s[j] == ' ' || s[j] == '\t') by {
            if j > 0 {
                assert(s[j] == s.drop_first()[j - 1]);
            }
        }
        if indent_run(s) < s.len() {
            assert(s[indent_run(s) as int] == s.drop_first()[indent_run(s) - 1]);
        }
    }
}

/// The sum over lines `a..b` of each body's length plus one (a break of
/// any kind counts one).
pub open spec fn span_sum(ls: Seq<LineV>, a: int, b: int) -> int
    decreases b - a,
{
    if a >= b { 0 } else { span_sum(ls, a, b - 1) + ls[b - 1].body.len() + 1 }
}

impl EditorCore {
    /// The text Enter inserts: a line break and the cursor line's leading
    /// spaces and tabs, up to the cursor.
    pub open spec fn enter_text(&self) -> Seq<char> {
        let body = self.ls()[self.cursor.line as int].body;
        let run = indent_run(body);
        let k = if run <= self.cursor.col { run as int } else { self.cursor.col as int };
        seq!['\n'] + body.take(k)
    }

    /// Enter: inserts a line break and the current line's indentation up to
    /// the cursor (see [`Self::insert_str`]).
    pub fn enter(&mut self)
        requires
            old(self).wf(),
            3 * old(self).doc.text().len() + 3 < isize::MAX,
        ensures
            old(self).insert_outcome(final(self), old(self).enter_text()),
    {
        let body = self.doc.body_chars(self.cursor.line);
        proof {
            lemma_indent_run(body@);
            crate::lineblock::lemma_body_len(self.ls());
        }
        let mut run: usize = 0;
        while run < body.len() && (body[run] == ' ' || body[run] == '\t')
            invariant
                run <= indent_run(body@) <= body@.len(),
                forall|j: int| 0 <= j < indent_run(body@) ==> (#[trigger] body@[j] == ' ' || body@[j] == '\t'),
                indent_run(body@) < body@.len() ==> !(body@[indent_run(body@) as int] == ' ' || body@[indent_run(body@) as int] == '\t'),
            decreases body@.len() - run,
        {
            run = run + 1;
        }
        let k = if run <= self.cursor.col { run } else { self.cursor.col };
        let mut text: Vec<char> = Vec::new();
        text.push('\n');
        let head = crate::tabs::sub_chars(body.as_slice(), 0, k);
        crate::document::append_chars(&mut text, head.as_slice());
        proof {
            assert(head@ =~= body@.take(k as int));
            assert(text@ =~= old(self).enter_text());
        }
        self.insert_chars(&text);
    }

    /// Replaces the selection by `text` (inserts it without one; see
    /// [`Self::insert_str`]).
    pub fn replace_selection(&mut self, text: &str)
        requires
            old(self).wf(),
            old(self).doc.text().len() + 2 * text@.len() + 1 < isize::MAX,
        ensures
            old(self).insert_outcome(final(self), text@),
    {
        self.insert_str(text);
    }

    /// The cursor line's text with its break.
    pub fn current_line_copy_text(&self) -> (r: String)
        requires
            self.wf(),
        ensures
            r@ == line_text(self.ls()[self.cursor.line as int]),
    {
        let mut v = self.doc.body_chars(self.cursor.line);
        crate::document::push_eol(&mut v, self.doc.eol_of(self.cursor.line));
        string_of(v.as_slice())
    }

    /// Deletes to the previous (`left`) or next word boundary, as one undo
    /// entry; with a selection, Backspace or Delete instead. Returns
    /// whether anything was deleted; at the document's edge (no boundary,
    /// or the boundary is the cursor) nothing changes.
    pub fn delete_word(&mut self, left: bool) -> (r: bool)
        requires
            old(self).wf(),
        ensures
            old(self).anchor is Some && left ==> old(self).backspace_outcome(final(self), r),
            old(self).anchor is Some && !left ==> old(self).delete_outcome(final(self), r),
            old(self).anchor is None ==> match word_target(old(self).ls(), old(self).cursor.line as int, old(self).cursor.col as int, left) {
                Some((l, c)) => if l == old(self).cursor.line && c == old(self).cursor.col {
                    !r && *final(self) == *old(self)
                } else {
                    (EditorCore { typing_run: None, anchor: Some(CursorPos { line: l as usize, col: c as usize }), ..*old(self) })
                        .delsel_outcome(final(self), r)
                },
                None => !r && *final(self) == *old(self),
            },
    {
        if self.anchor.is_some() {
            return if left { self.backspace() } else { self.delete_forward() };
        }
        let (line, col) = match self.word_neighbor(left) {
            Some(t) => t,
            None => return false,
        };
        if line == self.cursor.line && col == self.cursor.col {
            return false;
        }
        proof {
            lemma_word_target_in(self.ls(), self.cursor.line as int, self.cursor.col as int);
            assert(word_target(self.ls(), self.cursor.line as int, self.cursor.col as int, left) matches Some((l, c))
                && 0 <= l < self.ls().len() && 0 <= c <= self.ls()[l].body.len());
        }
        self.break_typing();
        self.anchor = Some(CursorPos { line, col });
        self.delete_selection()
    }

    /// The selection's length with every line break counted as one
    /// character (none without a selection).
    pub open spec fn sel_display_len(&self) -> Option<int> {
        match self.sel_ordered() {
            None => None,
            Some((s, e)) => if s.line == e.line {
                Some(if e.col >= s.col { e.col - s.col } else { 0 })
            } else {
                Some(self.ls()[s.line as int].body.len() - s.col + 1 + span_sum(self.ls(), s.line + 1, e.line as int) + e.col)
            },
        }
    }

    /// The selection's length with every line break counted as one
    /// character (none without a selection).
    pub fn selection_display_len(&self) -> (r: Option<usize>)
        requires
            self.wf(),
        ensures
            match r {
                Some(n) => self.sel_display_len() == Some(n as int),
                None => self.sel_display_len() is None,
            },
    {
        let (s, e) = match self.ordered_selection() {
            Some(p) => p,
            None => return None,
        };
        if s.line == e.line {
            return Some(if e.col >= s.col { e.col - s.col } else { 0 });
        }
        let ghost ls = self.ls();
        proof {
            reveal(lines_wf);
            crate::edit::lemma_pos_order(ls, s, e);
            lemma_line_in_text(ls, s.line as int);
        }
        let mut n = self.doc.body_len(s.line) - s.col + 1;
        let mut l = s.line + 1;
        proof {
            crate::document::lemma_line_start_mono(ls, s.line + 1, e.line as int);
        }
        while l < e.line
            invariant
                s.line + 1 <= l <= e.line < ls.len(),
                ls == self.ls(),
                self.wf(),
                lines_wf(ls),
                s.col <= ls[s.line as int].body.len(),
                n == ls[s.line as int].body.len() - s.col + 1 + span_sum(ls, s.line + 1, l as int),
                n <= crate::document::line_start(ls, l as int) - crate::document::line_start(ls, s.line as int) - s.col,
                crate::document::line_start(ls, l as int) <= crate::document::line_start(ls, e.line as int),
            decreases e.line - l,
        {
            proof {
                reveal(lines_wf);
                lemma_line_in_text(ls, l as int);
                crate::document::lemma_line_start_mono(ls, l + 1, e.line as int);
                assert(ls[l as int].eol != crate::document::Eol::NoBreak);
            }
            n = n + self.doc.body_len(l) + 1;
            l = l + 1;
        }
        proof {
            crate::document::lemma_pos_round_trip(ls, e.line as int, e.col as int);
        }
        Some(n + e.col)
    }

    /// Inserts the current date and time (`YYYY-MM-DD HH:MM`) at the cursor
    /// (see [`Self::insert_str`]) and returns it.
    pub fn insert_date_time(&mut self) -> (r: String)
        requires
            old(self).wf(),
            old(self).doc.text().len() + 100 < isize::MAX,
        ensures
            old(self).insert_outcome(final(self), r@),
            exists|t: Option<u64>| r@ == #[trigger] crate::clock::stamp_text(crate::clock::civil_of(crate::clock::clock_secs(t))),
    {
        let stamp = crate::clock::local_datetime_stamp();
        proof {
            let t = choose|t: Option<u64>| stamp@ == #[trigger] crate::clock::stamp_text(crate::clock::civil_of(crate::clock::clock_secs(t)));
            crate::clock::lemma_stamp_len(crate::clock::civil_of(crate::clock::clock_secs(t)));
        }
        self.insert_str(stamp.as_str());
        stamp
    }

    /// An IME composition update: taken only while the editor has focus
    /// (an empty string clears the composition). Returns whether it was
    /// taken.
    pub fn ime_preedit(&mut self, content: String) -> (r: bool)
        ensures
            r == old(self).focused,
            r ==> *final(self) == (EditorCore { preedit: if content@.len() == 0 { None } else { Some(content) }, ..*old(self) }),
            !r ==> *final(self) == *old(self),
    {
        if !self.focused {
            return false;
        }
        self.preedit = if content.as_str().is_empty() { None } else { Some(content) };
        true
    }

    /// An IME commit: ignored without focus; otherwise the composition is
    /// cleared and the text (if any) handed back for insertion.
    pub fn ime_commit(&mut self, text: &str) -> (r: ImeCommit)
        ensures
            !old(self).focused ==> r == ImeCommit::Ignored && *final(self) == *old(self),
            old(self).focused ==> *final(self) == (EditorCore { preedit: None, ..*old(self) })
                && (r matches ImeCommit::Consumed(o) && (if text@.len() == 0 { o is None } else { o matches Some(t) && t@ == text@ })),
    {
        if !self.focused {
            return ImeCommit::Ignored;
        }
        self.preedit = None;
        if text.is_empty() {
            ImeCommit::Consumed(None)
        } else {
            ImeCommit::Consumed(Some(text.to_owned()))
        }
    }

    /// Sets the document's syntax by name (none for plain text); the line
    /// comment prefix follows it.
    pub fn set_language_by_name(&mut self, name: Option<&str>)
        ensures
            *final(self) == (EditorCore { syntax_name: final(self).syntax_name, ..*old(self) }),
            match name {
                Some(n) => final(self).syntax_name matches Some(s) && s@ == n@,
                None => final(self).syntax_name is None,
            },
    {
        self.syntax_name = match name {
            Some(n) => Some(n.to_owned()),
            None => None,
        };
    }

    /// The document's syntax name (none for plain text).
    pub fn highlight_syntax_name(&self) -> (r: Option<String>)
        ensures
            match self.syntax_name {
                Some(s) => r matches Some(t) && t@ == s@,
                None => r is None,
            },
    {
        match &self.syntax_name {
            Some(s) => Some(s.as_str().to_owned()),
            None => None,
        }
    }

    /// A mouse press inside the editor takes the focus; one outside gives
    /// it away, dropping the composition and ending the typing run.
    pub fn pointer_focus(&mut self, inside: bool)
        ensures
            inside ==> *final(self) == (EditorCore { focused: true, ..*old(self) }),
            !inside ==> *final(self) == (EditorCore { focused: false, preedit: None, typing_run: None, ..*old(self) }),
    {
        self.focused = inside;
        if !inside {
            self.preedit = None;
            self.typing_run = None;
        }
    }

    /// Sets whether white space and line endings are drawn.
    pub fn set_invisibles(&mut self, whitespace: bool, line_endings: bool)
        ensures
            *final(self) == (EditorCore { show_whitespace: whitespace, show_line_endings: line_endings, ..*old(self) }),
    {
        self.show_whitespace = whitespace;
        self.show_line_endings = line_endings;
    }

    /// Sets whether indentation guides are drawn.
    pub fn set_indent_guides(&mut self, on: bool)
        ensures
            *final(self) == (EditorCore { indent_guides: on, ..*old(self) }),
    {
        self.indent_guides = on;
    }

    /// Sets the edge ruler column (0 turns it off).
    pub fn set_edge_column(&mut self, col: u32)
        ensures
            *final(self) == (EditorCore { edge_column: col, ..*old(self) }),
    {
        self.edge_column = col;
    }

    /// Turns soft wrap on or off; turning it on clears the column block.
    pub fn set_word_wrap(&mut self, enabled: bool)
        ensures
            enabled == old(self).wrap_enabled ==> *final(self) == *old(self),
            enabled != old(self).wrap_enabled && enabled ==> *final(self) == (EditorCore {
                wrap_enabled: true, block_sel: None, block_dragging: false, extra_cursors: final(self).extra_cursors, ..*old(self) })
                && final(self).extra_cursors@.len() == 0,
            enabled != old(self).wrap_enabled && !enabled ==> *final(self) == (EditorCore { wrap_enabled: false, ..*old(self) }),
    {
        if enabled == self.wrap_enabled {
            return;
        }
        if enabled {
            self.block_dragging = false;
            self.block_sel = None;
            self.extra_cursors = Vec::new();
        }
        self.wrap_enabled = enabled;
    }

    /// Recomputes the widest-line mark from scratch.
    pub fn recompute_max_line_cols(&mut self)
        requires
            old(self).wf(),
        ensures
            final(self).max_line_cols == max_cols_over(0, old(self).ls(), 0, old(self).ls().len() as int),
            *final(self) == (EditorCore { max_line_cols: final(self).max_line_cols, ..*old(self) }),
    {
        proof {
            reveal(lines_wf);
        }
        self.max_line_cols = 0;
        let n = self.doc.line_count();
        self.raise_max_line_cols(0, n - 1);
    }
}

impl EditorCore {
    /// Loads a new document: it becomes the saved baseline; the history,
    /// typing run, selection, bookmarks and composition are cleared; the
    /// cursor goes to the start; the widest-line mark is recomputed.
    pub fn reset_document(&mut self, doc: Document)
        requires
            old(self).wf(),
            doc.wf(),
        ensures
            final(self).wf(),
            final(self).doc.lv() == doc.lv(),
            final(self).doc.ending == doc.ending,
            final(self).saved_baseline matches Some(b) && b.lv() == doc.lv() && b.ending == doc.ending,
            final(self).cursor == (CursorPos { line: 0, col: 0 }),
            final(self).anchor is None,
            final(self).undo_view() == Seq::<SnapV>::empty(),
            final(self).redo_view() == Seq::<SnapV>::empty(),
            final(self).typing_run is None,
            final(self).bookmarks.set() == Set::<usize>::empty(),
            final(self).preedit is None,
            final(self).max_line_cols == max_cols_over(0, doc.lv(), 0, doc.lv().len() as int),
            final(self).block_sel == old(self).block_sel,
    {
        self.saved_baseline = Some(doc.clone_doc());
        self.doc = doc;
        self.cursor = CursorPos { line: 0, col: 0 };
        self.anchor = None;
        self.undo_stack = Vec::new();
        self.redo_stack = Vec::new();
        self.typing_run = None;
        self.bookmarks = LineSet::new();
        self.preedit = None;
        proof {
            reveal(lines_wf);
            assert(self.undo_view() =~= Seq::<SnapV>::empty());
            assert(self.redo_view() =~= Seq::<SnapV>::empty());
        }
        self.recompute_max_line_cols();
    }

    /// Replaces the whole document (one undo entry, so the replacement can
    /// be undone): cursor at the start, no selection, bookmarks cleared,
    /// widest-line mark recomputed.
    pub fn replace_whole_document(&mut self, doc: Document)
        requires
            old(self).wf(),
            doc.wf(),
        ensures
            final(self).wf(),
            final(self).doc.lv() == doc.lv(),
            final(self).doc.ending == doc.ending,
            final(self).undo_view() == push_capped(old(self).undo_view(), old(self).snap()),
            final(self).redo_view() == Seq::<SnapV>::empty(),
            final(self).typing_run is None,
            final(self).cursor == (CursorPos { line: 0, col: 0 }),
            final(self).anchor is None,
            final(self).bookmarks.set() == Set::<usize>::empty(),
            final(self).max_line_cols == max_cols_over(0, doc.lv(), 0, doc.lv().len() as int),
            final(self).saved_baseline == old(self).saved_baseline,
            final(self).block_sel == old(self).block_sel,
    {
        self.snapshot();
        self.doc = doc;
        self.cursor = CursorPos { line: 0, col: 0 };
        self.anchor = None;
        self.bookmarks = LineSet::new();
        proof {
            reveal(lines_wf);
        }
        self.recompute_max_line_cols();
    }
}

} // verus!
