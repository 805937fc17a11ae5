//! Text insertion and deletion at the cursor, selection queries.

use vstd::prelude::*;
use crate::document::{Document, LineV, lines_wf, text_of, line_start, pos_of_offset, normalize_eol,
    normalize_chars, lemma_pos_round_trip, lemma_line_start_mono, lemma_line_in_text, line_text, Eol, eol_chars};
use crate::editor::{EditorCore, CursorPos, pos_le, pos_in, push_capped, SnapV, edit_frame};
use crate::lineset::{LineSet, image};
use crate::marks::{shift_map, replaced_span_set, merge_pair_map, remap_shift_below, remap_replaced_span, remap_merge_pair};
use crate::metrics::{spec_break_count, measure_chars, spec_display_cols, display_cols_of};
use crate::strs::{chars_of, string_of};

verus! {

/// Offsets of a position in order: a position on a line and within its
/// text sits at or after any earlier position.
pub proof fn lemma_pos_order(ls: Seq<LineV>, a: CursorPos, b: CursorPos)
    requires
        lines_wf(ls),
        pos_in(ls, a),
        pos_in(ls, b),
        pos_le(a, b),
    ensures
        line_start(ls, a.line as int) + a.col <= line_start(ls, b.line as int) + b.col,
        line_start(ls, b.line as int) + b.col <= text_of(ls).len(),
{
    lemma_pos_round_trip(ls, b.line as int, b.col as int);
    if a.line < b.line {
        lemma_line_in_text(ls, a.line as int);
        lemma_line_start_mono(ls, a.line + 1, b.line as int);
    }
}

/// Display width of a line, saturating for absurdly long lines.
pub open spec fn line_cols(l: LineV) -> nat {
    if 4 * l.body.len() <= usize::MAX { spec_display_cols(l.body) } else { usize::MAX as nat }
}

/// The widest of `m` and the lines `a..b`.
pub open spec fn max_cols_over(m: nat, ls: Seq<LineV>, a: int, b: int) -> nat
    decreases b - a,
{
    if a >= b {
        m
    } else {
        let w = line_cols(ls[b - 1]);
        let r = max_cols_over(m, ls, a, b - 1);
        if w > r { w } else { r }
    }
}

impl EditorCore {
    /// Offset of a position.
    pub open spec fn off_of(&self, p: CursorPos) -> int {
        self.doc.lstart(p.line as int) + p.col
    }

    /// The selection's ends in document order.
    pub open spec fn sel_ordered(&self) -> Option<(CursorPos, CursorPos)> {
        match self.anchor {
            None => None,
            Some(a) => if pos_le(a, self.cursor) { Some((a, self.cursor)) } else { Some((self.cursor, a)) },
        }
    }

    /// The selection's offset range.
    pub open spec fn sel_offsets(&self) -> Option<(int, int)> {
        match self.sel_ordered() {
            None => None,
            Some((a, b)) => Some((self.off_of(a), self.off_of(b))),
        }
    }

    /// Display length of line `line` (0 past the last line).
    pub fn line_display_len(&self, line: usize) -> (r: usize)
        ensures
            r == if line < self.ls().len() { self.ls()[line as int].body.len() as int } else { 0 },
    {
        if line >= self.doc.line_count() {
            0
        } else {
            self.doc.body_len(line)
        }
    }

    /// Offset of a position on the document.
    pub fn offset_of_pos(&self, p: CursorPos) -> (r: usize)
        requires
            self.wf(),
            pos_in(self.ls(), p),
        ensures
            r == self.off_of(p),
            r <= self.doc.text().len(),
    {
        proof {
            lemma_pos_round_trip(self.ls(), p.line as int, p.col as int);
        }
        self.doc.line_to_char(p.line) + p.col
    }

    /// The cursor's offset in the text.
    pub fn cursor_offset(&self) -> (r: usize)
        requires
            self.wf(),
        ensures
            r == self.off_of(self.cursor),
    {
        self.offset_of_pos(self.cursor)
    }

    /// The selection's ends in document order (none without an anchor).
    pub fn ordered_selection(&self) -> (r: Option<(CursorPos, CursorPos)>)
        ensures
            r == self.sel_ordered(),
    {
        match self.anchor {
            None => None,
            Some(a) => {
                if a.line < self.cursor.line || (a.line == self.cursor.line && a.col <= self.cursor.col) {
                    Some((a, self.cursor))
                } else {
                    Some((self.cursor, a))
                }
            },
        }
    }

    /// The selection's offset range, start first.
    pub fn selection_offsets(&self) -> (r: Option<(usize, usize)>)
        requires
            self.wf(),
        ensures
            match r {
                None => self.sel_offsets() is None,
                Some((s, e)) => self.sel_offsets() == Some((s as int, e as int)) && s <= e
                    && e <= self.doc.text().len(),
            },
    {
        match self.ordered_selection() {
            None => None,
            Some((a, b)) => {
                proof {
                    lemma_pos_order(self.ls(), a, b);
                }
                Some((self.offset_of_pos(a), self.offset_of_pos(b)))
            },
        }
    }

    /// The selected text (none without a selection or when it is empty).
    pub fn selected_text(&self) -> (r: Option<String>)
        requires
            self.wf(),
        ensures
            match self.sel_offsets() {
                Some((s, e)) if s < e => r matches Some(t) && t@ == self.doc.text().subrange(s, e),
                _ => r is None,
            },
    {
        match self.selection_offsets() {
            Some((s, e)) => {
                if s < e {
                    let v = self.doc.slice(s, e);
                    Some(string_of(v.as_slice()))
                } else {
                    None
                }
            },
            None => None,
        }
    }

    /// The character at offset `off`, if any.
    pub fn char_at(&self, off: usize) -> (r: Option<char>)
        requires
            self.wf(),
        ensures
            r == if off < self.doc.text().len() { Some(self.doc.text()[off as int]) } else { None },
    {
        if off >= self.doc.text_len() {
            return None;
        }
        let v = self.doc.slice(off, off + 1);
        Some(v[0])
    }

    /// Display width of line `l` (saturating).
    fn line_cols_exec(&self, l: usize) -> (r: usize)
        requires
            l < self.ls().len(),
        ensures
            r == line_cols(self.ls()[l as int]),
    {
        let n = self.doc.body_len(l);
        if n <= usize::MAX / 4 {
            let b = self.doc.body_chars(l);
            display_cols_of(b.as_slice())
        } else {
            usize::MAX
        }
    }

    /// The widest line seen, in display columns (a high-water mark that may
    /// run above the true width until it is recomputed).
    pub fn max_line_display_cols(&self) -> (r: usize)
        ensures
            r == self.max_line_cols,
    {
        self.max_line_cols
    }

    /// Raises the widest-line mark to cover lines `a..=b`.
    pub fn raise_max_line_cols(&mut self, a: usize, b: usize)
        requires
            a <= b < old(self).ls().len(),
        ensures
            final(self).max_line_cols == max_cols_over(old(self).max_line_cols as nat, old(self).ls(), a as int, b + 1),
            *final(self) == (EditorCore { max_line_cols: final(self).max_line_cols, ..*old(self) }),
    {
        let mut i = a;
        while i <= b
            invariant
                a <= i <= b + 1,
                b < self.ls().len(),
                b < self.doc.lines.len(),
                *self == (EditorCore { max_line_cols: self.max_line_cols, ..*old(self) }),
                self.max_line_cols == max_cols_over(old(self).max_line_cols as nat, self.ls(), a as int, i as int),
            decreases b + 1 - i,
        {
            let w = self.line_cols_exec(i);
            if w > self.max_line_cols {
                self.max_line_cols = w;
            }
            i = i + 1;
        }
    }
}

/// A single typed character (not a line break).
pub open spec fn single_typed(t: Seq<char>) -> bool {
    t.len() == 1 && t[0] != '\n' && t[0] != '\r'
}

impl EditorCore {
    /// Text as it is inserted: line breaks normalized to the document's
    /// ending.
    pub open spec fn typed(&self, text: Seq<char>) -> Seq<char> {
        normalize_eol(text, self.doc.ending)
    }

    /// The offsets that inserting `t` replaces: the selection; otherwise in
    /// overwrite mode a typed character replaces the character under the
    /// cursor (not at the end of the line); otherwise nothing, at the
    /// cursor.
    pub open spec fn insert_range(&self, t: Seq<char>) -> (int, int) {
        match self.sel_offsets() {
            Some(r) => r,
            None => {
                let at = self.off_of(self.cursor);
                if self.overwrite && single_typed(t)
                    && self.cursor.col < self.ls()[self.cursor.line as int].body.len() {
                    (at, at + 1)
                } else {
                    (at, at)
                }
            },
        }
    }

    /// The line where an insertion starts.
    pub open spec fn insert_line(&self) -> int {
        match self.sel_ordered() {
            Some((s, _e)) => s.line as int,
            None => self.cursor.line as int,
        }
    }

    /// Bookmarks after a multi-line selection is replaced (unchanged for a
    /// single-line selection or none).
    pub open spec fn marks_after_replace(&self) -> Set<usize> {
        match self.sel_ordered() {
            Some((s, e)) => if e.line > s.line {
                replaced_span_set(self.bookmarks.set(), s.line as int, s.col > 0, e.line as int,
                    if e.col == 0 { e.line - 1 - s.line } else { e.line - s.line })
            } else {
                self.bookmarks.set()
            },
            None => self.bookmarks.set(),
        }
    }

    /// Bookmarks after inserting `t`: the replaced selection's remapping,
    /// then the marks below the insertion line pushed down by the number of
    /// line breaks inserted.
    pub open spec fn marks_after_insert(&self, t: Seq<char>) -> Set<usize> {
        image(self.marks_after_replace(), shift_map(self.insert_line(), spec_break_count(t) as int))
    }

    /// Whether inserting `t` joins the current typing run (one undo entry):
    /// a single typed character, no selection, right where the run ended.
    pub open spec fn joins_run(&self, t: Seq<char>) -> bool {
        single_typed(t) && self.anchor is None && self.typing_run == Some(self.off_of(self.cursor) as usize)
    }

    /// What inserting `raw` leaves (see [`Self::insert_str`]): the
    /// normalized text replaces [`Self::insert_range`], the cursor after it,
    /// no selection; a joining keystroke shares the last undo entry,
    /// anything else adds one; bookmarks as [`Self::marks_after_insert`].
    pub open spec fn insert_outcome(&self, post: &EditorCore, raw: Seq<char>) -> bool {
        let t = self.typed(raw);
        let (s, e) = self.insert_range(t);
        &&& post.wf()
        &&& post.doc.text() == self.doc.text().take(s) + t + self.doc.text().skip(e)
        &&& post.doc.ending == self.doc.ending
        &&& (post.cursor.line as int, post.cursor.col as int) == pos_of_offset(post.ls(), s + t.len())
        &&& post.anchor is None
        &&& (self.joins_run(t) ==> post.undo_stack@ == self.undo_stack@
            && post.redo_stack@ == self.redo_stack@)
        &&& (!self.joins_run(t) ==> post.undo_view() == push_capped(self.undo_view(), self.snap())
            && post.redo_view() == Seq::<SnapV>::empty())
        &&& post.typing_run == if single_typed(t) && self.anchor is None { Some((s + 1) as usize) } else { None }
        &&& post.bookmarks.set() == self.marks_after_insert(t)
        &&& post.block_sel == self.block_sel
        &&& post.saved_baseline == self.saved_baseline
        &&& edit_frame(self, post)
        &&& post.extra_cursors == self.extra_cursors
    }

    /// Where inserting `t` goes: the replaced range, the first line, whether
    /// it joins the typing run and whether it may start one.
    fn insert_plan(&self, t: &Vec<char>) -> (r: (usize, usize, usize, bool, bool))
        requires
            self.wf(),
        ensures
            (r.0 as int, r.1 as int) == self.insert_range(t@),
            r.0 <= r.1 <= self.doc.text().len(),
            r.2 == self.insert_line(),
            r.3 == self.joins_run(t@),
            r.4 == (single_typed(t@) && self.anchor is None),
    {
        let single_ok = t.len() == 1 && t[0] != '\n' && t[0] != '\r';
        let at = self.cursor_offset();
        let no_sel = self.anchor.is_none();
        let merges = match self.typing_run {
            Some(run_end) => single_ok && no_sel && at == run_end,
            None => false,
        };
        let eligible = single_ok && no_sel;
        let sel = self.ordered_selection();
        match self.selection_offsets() {
            Some((s, e)) => {
                let (a, _b) = sel.unwrap();
                (s, e, a.line, merges, eligible)
            },
            None => {
                proof {
                    lemma_pos_round_trip(self.ls(), self.cursor.line as int, self.cursor.col as int);
                    lemma_line_in_text(self.ls(), self.cursor.line as int);
                }
                if self.overwrite && eligible && self.cursor.col < self.doc.body_len(self.cursor.line) {
                    (at, at + 1, self.cursor.line, merges, eligible)
                } else {
                    (at, at, self.cursor.line, merges, eligible)
                }
            },
        }
    }

    /// Replaces offsets `[start, end)` with `t`, puts the cursor after it,
    /// drops the selection and raises the widest-line mark over the lines
    /// from `first_line` to the cursor.
    pub fn replace_and_place(&mut self, start: usize, end: usize, t: &Vec<char>, first_line: usize)
        requires
            old(self).wf(),
            start <= end <= old(self).doc.text().len(),
            old(self).doc.text().len() + t@.len() < usize::MAX,
        ensures
            final(self).wf(),
            final(self).doc.text() == old(self).doc.text().take(start as int) + t@ + old(self).doc.text().skip(end as int),
            final(self).doc.ending == old(self).doc.ending,
            (final(self).cursor.line as int, final(self).cursor.col as int) == pos_of_offset(final(self).ls(), start + t@.len()),
            final(self).anchor is None,
            final(self).undo_stack@ == old(self).undo_stack@,
            final(self).redo_stack@ == old(self).redo_stack@,
            final(self).typing_run == old(self).typing_run,
            final(self).bookmarks == old(self).bookmarks,
            final(self).block_sel == old(self).block_sel,
            final(self).saved_baseline == old(self).saved_baseline,
            final(self).overwrite == old(self).overwrite,
            final(self).focused == old(self).focused,
            final(self).syntax_name == old(self).syntax_name,
            edit_frame(old(self), final(self)),
            final(self).extra_cursors == old(self).extra_cursors,
    {
        self.doc.replace_range(start, end, t.as_slice());
        let (l, c) = self.doc.char_to_pos(start + t.len());
        self.cursor = CursorPos { line: l, col: c };
        self.anchor = None;
        let top = if first_line < l { first_line } else { l };
        self.raise_max_line_cols(top, l);
    }

    /// The bookmarks after an insertion of `breaks` line breaks that
    /// replaces the selection `sel` (see [`Self::marks_after_insert`]).
    fn marks_for_insert(&self, sel: Option<(CursorPos, CursorPos)>, first_line: usize, breaks: usize) -> (r: LineSet)
        requires
            self.bookmarks.wf(),
            sel == self.sel_ordered(),
            first_line == self.insert_line(),
            breaks <= isize::MAX,
        ensures
            r.wf(),
            r.set() == image(self.marks_after_replace(), shift_map(first_line as int, breaks as int)),
    {
        let mut tmp = LineSet { items: self.bookmarks.to_vec() };
        if let Some((s, e)) = sel {
            if e.line > s.line {
                let van = if e.col == 0 { e.line - 1 - s.line } else { e.line - s.line };
                tmp = remap_replaced_span(&self.bookmarks, s.line, s.col > 0, e.line, van);
            }
        }
        remap_shift_below(&tmp, first_line, breaks as isize)
    }

    /// Inserts `text` at the cursor, replacing the selection. Line breaks
    /// are normalized to the document's ending. A single typed character
    /// right after the previous one shares its undo entry; anything else
    /// starts a new one. The cursor lands after the inserted text.
    pub fn insert_str(&mut self, text: &str)
        requires
            old(self).wf(),
            old(self).doc.text().len() + 2 * text@.len() + 1 < isize::MAX,
        ensures
            old(self).insert_outcome(final(self), text@),
    {
        let raw = chars_of(text);
        self.insert_chars(&raw);
    }

    /// [`Self::insert_str`] on a character sequence.
    #[verifier::rlimit(40)]
    pub fn insert_chars(&mut self, raw: &Vec<char>)
        requires
            old(self).wf(),
            old(self).doc.text().len() + 2 * raw@.len() + 1 < isize::MAX,
        ensures
            old(self).insert_outcome(final(self), raw@),
    {
        proof {
            crate::document::lemma_normalize_len(raw@, self.doc.ending);
        }
        let t = normalize_chars(raw.as_slice(), self.doc.ending);
        let (start, end, first_line, merges, eligible) = self.insert_plan(&t);
        let sel = self.ordered_selection();
        let (breaks, _tail) = measure_chars(t.as_slice());
        let marks = self.marks_for_insert(sel, first_line, breaks);
        if !merges {
            self.snapshot();
        }
        self.typing_run = None;
        self.bookmarks = marks;
        self.replace_and_place(start, end, &t, first_line);
        self.typing_run = if eligible { Some(start + 1) } else { None };
    }
}

impl EditorCore {
    /// The current state with the selection dropped.
    pub open spec fn snap_unselected(&self) -> SnapV {
        SnapV { anchor: None, ..self.snap() }
    }

    /// Start offset of the selection (0 without one).
    pub open spec fn sel_lo(&self) -> int {
        match self.sel_offsets() {
            Some((s, _e)) => s,
            None => 0,
        }
    }

    /// End offset of the selection (0 without one).
    pub open spec fn sel_hi(&self) -> int {
        match self.sel_offsets() {
            Some((_s, e)) => e,
            None => 0,
        }
    }

    /// The selection covers at least one character.
    pub open spec fn has_sel_text(&self) -> bool {
        self.sel_offsets() matches Some((s, e)) && s < e
    }

    /// What deleting the selection leaves (see [`Self::delete_selection`]).
    pub open spec fn delsel_outcome(&self, post: &EditorCore, r: bool) -> bool {
        &&& (post.wf())
        &&& (r == self.has_sel_text())
        &&& (post.anchor is None)
        &&& (r ==> post.doc.text() == self.doc.text().take(self.sel_lo()) + self.doc.text().skip(self.sel_hi())
            && (post.cursor.line as int, post.cursor.col as int) == pos_of_offset(post.ls(), self.sel_lo())
            && post.undo_view() == push_capped(self.undo_view(), self.snap())
            && post.redo_view() == Seq::<SnapV>::empty()
            && post.bookmarks.set() == self.marks_after_replace()
            && post.typing_run is None)
        &&& (!r ==> post.doc == self.doc
            && post.cursor == self.cursor
            && post.bookmarks == self.bookmarks
            && post.undo_stack == self.undo_stack
            && post.redo_stack == self.redo_stack
            && post.typing_run == self.typing_run)
        &&& (post.doc.ending == self.doc.ending)
        &&& (post.block_sel == self.block_sel)
        &&& (post.saved_baseline == self.saved_baseline)
        &&& (post.overwrite == self.overwrite)
        &&& (post.focused == self.focused)
        &&& (post.syntax_name == self.syntax_name)
        &&& edit_frame(self, post)
        &&& (post.extra_cursors == self.extra_cursors)
    }

    /// Deletes the selected text (one undo entry); returns whether there
    /// was any. An empty selection is only dropped.
    pub fn delete_selection(&mut self) -> (r: bool)
        requires
            old(self).wf(),
        ensures
            old(self).delsel_outcome(final(self), r),
    {
        match self.selection_offsets() {
            Some((s, e)) => {
                if s < e {
                    let sel = self.ordered_selection();
                    let (a, _b) = sel.unwrap();
                    let marks = self.marks_for_insert(sel, a.line, 0);
                    proof {
                        assert(image(old(self).marks_after_replace(), shift_map(a.line as int, 0))
                            =~= old(self).marks_after_replace());
                    }
                    self.snapshot();
                    self.bookmarks = marks;
                    let empty: Vec<char> = Vec::new();
                    self.replace_and_place(s, e, &empty, a.line);
                    proof {
                        assert(self.doc.text() =~= old(self).doc.text().take(s as int) + old(self).doc.text().skip(e as int));
                    }
                    true
                } else {
                    self.anchor = None;
                    false
                }
            },
            None => {
                self.anchor = None;
                false
            },
        }
    }

    /// The range that Backspace removes without a selection: the character
    /// before the cursor, or at a line start the previous line's break.
    pub open spec fn backspace_range(&self) -> (int, int) {
        let at = self.off_of(self.cursor);
        if self.cursor.col > 0 {
            (at - 1, at)
        } else {
            (self.doc.lstart(self.cursor.line - 1) + self.ls()[self.cursor.line - 1].body.len(), at)
        }
    }

    /// Bookmarks after Backspace: joining two lines merges their marks.
    pub open spec fn backspace_marks(&self) -> Set<usize> {
        if self.cursor.col == 0 {
            image(self.bookmarks.set(), merge_pair_map(self.cursor.line - 1, self.cursor.line as int))
        } else {
            self.bookmarks.set()
        }
    }

    /// What Backspace leaves (see [`Self::backspace`]).
    pub open spec fn backspace_outcome(&self, post: &EditorCore, r: bool) -> bool {
        &&& (post.wf())
        &&& (post.anchor is None)
        &&& (self.has_sel_text() ==> r
            && post.doc.text() == self.doc.text().take(self.sel_lo()) + self.doc.text().skip(self.sel_hi())
            && post.bookmarks.set() == self.marks_after_replace())
        &&& (!self.has_sel_text() ==> r == (self.cursor != CursorPos { line: 0, col: 0 }))
        &&& (!self.has_sel_text()
            && r ==> post.doc.text() == self.doc.text().take(self.backspace_range().0) + self.doc.text().skip(self.backspace_range().1)
            && (post.cursor.line as int, post.cursor.col as int) == pos_of_offset(post.ls(), self.backspace_range().0)
            && post.bookmarks.set() == self.backspace_marks())
        &&& (self.has_sel_text() ==> post.undo_view() == push_capped(self.undo_view(), self.snap()))
        &&& (!self.has_sel_text()
            && r ==> post.undo_view() == push_capped(self.undo_view(), self.snap_unselected()))
        &&& (r ==> post.redo_view() == Seq::<SnapV>::empty() && post.typing_run is None)
        &&& (!r ==> post.doc == self.doc && post.cursor == self.cursor && post.undo_stack == self.undo_stack)
        &&& (post.doc.ending == self.doc.ending)
        &&& (post.block_sel == self.block_sel)
        &&& (post.saved_baseline == self.saved_baseline)
        &&& edit_frame(self, post)
        &&& (post.extra_cursors == self.extra_cursors)
    }

    /// Backspace: deletes the selection, else the character before the
    /// cursor (a `\r\n` break as a whole). Returns whether anything was
    /// deleted (false at the document start with no selection).
    pub fn backspace(&mut self) -> (r: bool)
        requires
            old(self).wf(),
        ensures
            old(self).backspace_outcome(final(self), r),
    {
        if self.delete_selection() {
            return true;
        }
        if self.cursor.line == 0 && self.cursor.col == 0 {
            return false;
        }
        let at = self.cursor_offset();
        let line = self.cursor.line;
        let (start, marks) = if self.cursor.col > 0 {
            proof {
                lemma_pos_round_trip(self.ls(), line as int, self.cursor.col as int);
            }
            (at - 1, LineSet { items: self.bookmarks.to_vec() })
        } else {
            proof {
                lemma_line_in_text(self.ls(), line - 1);
                lemma_pos_round_trip(self.ls(), line as int, 0);
            }
            let s = self.doc.line_to_char(line - 1) + self.doc.body_len(line - 1);
            (s, remap_merge_pair(&self.bookmarks, line - 1, line))
        };
        self.snapshot();
        self.bookmarks = marks;
        let empty: Vec<char> = Vec::new();
        let top = if self.cursor.col > 0 { line } else { line - 1 };
        self.replace_and_place(start, at, &empty, top);
        proof {
            assert(self.doc.text() =~= old(self).doc.text().take(start as int) + old(self).doc.text().skip(at as int));
        }
        true
    }

    /// The range that Delete removes without a selection: the character
    /// after the cursor, or at a line end the line break.
    pub open spec fn delete_range(&self) -> (int, int) {
        let at = self.off_of(self.cursor);
        if self.cursor.col < self.ls()[self.cursor.line as int].body.len() {
            (at, at + 1)
        } else {
            (at, self.doc.lstart(self.cursor.line + 1))
        }
    }

    /// Bookmarks after Delete: joining two lines merges their marks.
    pub open spec fn delete_marks(&self) -> Set<usize> {
        if self.cursor.col >= self.ls()[self.cursor.line as int].body.len() {
            image(self.bookmarks.set(), merge_pair_map(self.cursor.line as int, self.cursor.line + 1))
        } else {
            self.bookmarks.set()
        }
    }

    /// What Delete leaves (see [`Self::delete_forward`]).
    pub open spec fn delete_outcome(&self, post: &EditorCore, r: bool) -> bool {
        &&& (post.wf())
        &&& (post.anchor is None)
        &&& (self.has_sel_text() ==> r
            && post.doc.text() == self.doc.text().take(self.sel_lo()) + self.doc.text().skip(self.sel_hi())
            && post.bookmarks.set() == self.marks_after_replace())
        &&& (!self.has_sel_text() ==> r == (self.off_of(self.cursor) < self.doc.text().len()))
        &&& (!self.has_sel_text()
            && r ==> post.doc.text() == self.doc.text().take(self.delete_range().0) + self.doc.text().skip(self.delete_range().1)
            && (post.cursor.line as int, post.cursor.col as int) == pos_of_offset(post.ls(), self.delete_range().0)
            && post.bookmarks.set() == self.delete_marks())
        &&& (self.has_sel_text() ==> post.undo_view() == push_capped(self.undo_view(), self.snap()))
        &&& (!self.has_sel_text()
            && r ==> post.undo_view() == push_capped(self.undo_view(), self.snap_unselected()))
        &&& (r ==> post.redo_view() == Seq::<SnapV>::empty() && post.typing_run is None)
        &&& (!r ==> post.doc == self.doc && post.cursor == self.cursor && post.undo_stack == self.undo_stack)
        &&& (post.doc.ending == self.doc.ending)
        &&& (post.block_sel == self.block_sel)
        &&& (post.saved_baseline == self.saved_baseline)
        &&& edit_frame(self, post)
        &&& (post.extra_cursors == self.extra_cursors)
    }

    /// Delete: deletes the selection, else the character after the cursor
    /// (a `\r\n` break as a whole). Returns whether anything was deleted
    /// (false at the document end with no selection).
    pub fn delete_forward(&mut self) -> (r: bool)
        requires
            old(self).wf(),
        ensures
            old(self).delete_outcome(final(self), r),
    {
        if self.delete_selection() {
            return true;
        }
        let at = self.cursor_offset();
        if at >= self.doc.text_len() {
            return false;
        }
        let line = self.cursor.line;
        let n = self.doc.line_count();
        proof {
            lemma_line_in_text(self.ls(), line as int);
            reveal(crate::document::lines_wf);
            if line + 1 == self.ls().len() {
                crate::document::lemma_last_line_start(self.ls());
            }
        }
        let (end, marks) = if self.cursor.col < self.doc.body_len(line) {
            (at + 1, LineSet { items: self.bookmarks.to_vec() })
        } else {
            let e = self.doc.line_to_char(line + 1);
            (e, remap_merge_pair(&self.bookmarks, line, line + 1))
        };
        self.snapshot();
        self.bookmarks = marks;
        let empty: Vec<char> = Vec::new();
        self.replace_and_place(at, end, &empty, line);
        proof {
            assert(self.doc.text() =~= old(self).doc.text().take(at as int) + old(self).doc.text().skip(end as int));
        }
        true
    }
}

} // verus!
