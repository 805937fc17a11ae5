//! Cursor motion, selection changes and jumps (logical lines; the view
//! layer supplies the page height for PageUp/PageDown).

use vstd::prelude::*;
use crate::document::{LineV, lines_wf, pos_of_offset};
use crate::editor::{EditorCore, CursorPos, Motion, pos_in, SnapV};
use crate::cursors::{main_step, stepped};

verus! {

/// What `char::is_alphanumeric` answers for `c` (Unicode Alphabetic or
/// Numeric).
pub uninterp spec fn unicode_alphanumeric(c: char) -> bool;

/// `char::is_alphanumeric`: whether `c` is Unicode alphabetic or numeric.
#[verifier::external_body]
pub(crate) fn is_alphanumeric(c: char) -> (r: bool)
    ensures
        r == unicode_alphanumeric(c),
{
    c.is_alphanumeric()
}

/// A word character: alphanumeric or `_`.
pub open spec fn is_word_char(c: char) -> bool {
    unicode_alphanumeric(c) || c == '_'
}

pub(crate) fn word_char(c: char) -> (r: bool)
    ensures
        r == is_word_char(c),
{
    c == '_' || is_alphanumeric(c)
}

/// Blank for word motion: space or tab.
pub open spec fn is_blank(c: char) -> bool {
    c == ' ' || c == '\t'
}

/// Column reached from `o` by skipping blanks leftwards.
pub open spec fn skip_blank_left(b: Seq<char>, o: int) -> int
    decreases o,
{
    if o > 0 && o <= b.len() && is_blank(b[o - 1]) { skip_blank_left(b, o - 1) } else { o }
}

/// Column reached from `o` by skipping word characters leftwards.
pub open spec fn skip_word_left(b: Seq<char>, o: int) -> int
    decreases o,
{
    if o > 0 && o <= b.len() && is_word_char(b[o - 1]) { skip_word_left(b, o - 1) } else { o }
}

/// Column reached from `o` by skipping blanks rightwards.
pub open spec fn skip_blank_right(b: Seq<char>, o: int) -> int
    decreases b.len() - o,
{
    if 0 <= o < b.len() && is_blank(b[o]) { skip_blank_right(b, o + 1) } else { o }
}

/// Column reached from `o` by skipping word characters rightwards.
pub open spec fn skip_word_right(b: Seq<char>, o: int) -> int
    decreases b.len() - o,
{
    if 0 <= o < b.len() && is_word_char(b[o]) { skip_word_right(b, o + 1) } else { o }
}

/// The word-motion target from (`line`, `col`): blanks are skipped, then a
/// run of word characters or one other character is crossed. At a line
/// start (end) the target is the end (start) of the neighbouring line;
/// blanks alone before the cursor lead to column 0. `None` at the document
/// edge.
pub open spec fn word_target(ls: Seq<LineV>, line: int, col: int, left: bool) -> Option<(int, int)> {
    let b = ls[line].body;
    if left {
        if col == 0 {
            if line == 0 { None } else { Some((line - 1, ls[line - 1].body.len() as int)) }
        } else {
            let o = skip_blank_left(b, col);
            if o == 0 {
                Some((line, 0))
            } else if is_word_char(b[o - 1]) {
                Some((line, skip_word_left(b, o)))
            } else {
                Some((line, o - 1))
            }
        }
    } else {
        if col >= b.len() {
            if line + 1 < ls.len() { Some((line + 1, 0)) } else { None }
        } else {
            let o = skip_blank_right(b, col);
            if o == b.len() {
                if line + 1 < ls.len() { Some((line + 1, 0)) } else { Some((line, b.len() as int)) }
            } else if is_word_char(b[o]) {
                Some((line, skip_word_right(b, o)))
            } else {
                Some((line, o + 1))
            }
        }
    }
}

/// Where `m` moves the cursor `p` (logical lines; `page` rows per page, at
/// least one).
pub open spec fn motion_target(ls: Seq<LineV>, p: CursorPos, m: Motion, page_rows: int) -> (int, int) {
    let page = if page_rows < 1 { 1 } else { page_rows };
    let line = p.line as int;
    let col = p.col as int;
    let last = ls.len() - 1;
    let blen = |l: int| ls[l].body.len() as int;
    let clampc = |l: int| if col < blen(l) { col } else { blen(l) };
    match m {
        Motion::Left => if col > 0 { (line, col - 1) } else if line > 0 { (line - 1, blen(line - 1)) } else { (line, col) },
        Motion::Right => if col < blen(line) { (line, col + 1) } else if line < last { (line + 1, 0) } else { (line, col) },
        Motion::Up => if line > 0 { (line - 1, clampc(line - 1)) } else { (line, col) },
        Motion::Down => if line < last { (line + 1, clampc(line + 1)) } else { (line, col) },
        Motion::Home | Motion::LogicalHome => (line, 0),
        Motion::End | Motion::LogicalEnd => (line, blen(line)),
        Motion::PageUp => {
            let l = if line >= page { line - page } else { 0 };
            (l, clampc(l))
        },
        Motion::PageDown => {
            let l = if line + page < last { line + page } else { last };
            (l, clampc(l))
        },
        Motion::DocStart => (0, 0),
        Motion::DocEnd => (last, blen(last)),
        Motion::WordLeft => match word_target(ls, line, col, true) {
            Some(t) => t,
            None => (line, col),
        },
        Motion::WordRight => match word_target(ls, line, col, false) {
            Some(t) => t,
            None => (line, col),
        },
    }
}

/// The position `remain` characters after (`line`, `col`), a line break
/// counting as one character, stopping at the end of the document.
pub open spec fn advance(ls: Seq<LineV>, line: int, col: int, remain: int) -> (int, int)
    decreases remain,
{
    if remain <= 0 || line < 0 || line >= ls.len() {
        (line, col)
    } else {
        let len = ls[line].body.len() as int;
        let room = if len > col { len - col } else { 0 };
        if room >= remain {
            (line, col + remain)
        } else if line + 1 < ls.len() {
            advance(ls, line + 1, 0, remain - room - 1)
        } else {
            (line, len)
        }
    }
}

impl EditorCore {
    /// Word-motion target from the cursor (see [`word_target`]).
    pub fn word_neighbor(&self, left: bool) -> (r: Option<(usize, usize)>)
        requires
            self.wf(),
        ensures
            match r {
                None => word_target(self.ls(), self.cursor.line as int, self.cursor.col as int, left) is None,
                Some((l, c)) => word_target(self.ls(), self.cursor.line as int, self.cursor.col as int, left)
                    == Some((l as int, c as int)),
            },
    {
        let line = self.cursor.line;
        let col = self.cursor.col;
        let count = self.doc.line_count();
        let b = self.doc.body_chars(line);
        let blen = b.len();
        if left {
            if col == 0 {
                if line == 0 {
                    return None;
                }
                return Some((line - 1, self.doc.body_len(line - 1)));
            }
            let mut o = col;
            while o > 0 && (b[o - 1] == ' ' || b[o - 1] == '\t')
                invariant
                    o <= col <= blen == b@.len(),
                    skip_blank_left(b@, col as int) == skip_blank_left(b@, o as int),
                decreases o,
            {
                o = o - 1;
            }
            if o == 0 {
                return Some((line, 0));
            }
            if word_char(b[o - 1]) {
                let mut w = o;
                while w > 0 && word_char(b[w - 1])
                    invariant
                        w <= o <= blen == b@.len(),
                        skip_word_left(b@, o as int) == skip_word_left(b@, w as int),
                    decreases w,
                {
                    w = w - 1;
                }
                Some((line, w))
            } else {
                Some((line, o - 1))
            }
        } else {
            if col >= blen {
                if line + 1 < count {
                    return Some((line + 1, 0));
                }
                return None;
            }
            let mut o = col;
            while o < blen && (b[o] == ' ' || b[o] == '\t')
                invariant
                    col <= o <= blen == b@.len(),
                    skip_blank_right(b@, col as int) == skip_blank_right(b@, o as int),
                decreases blen - o,
            {
                o = o + 1;
            }
            if o == blen {
                if line + 1 < count {
                    return Some((line + 1, 0));
                }
                return Some((line, blen));
            }
            if word_char(b[o]) {
                let mut w = o;
                while w < blen && word_char(b[w])
                    invariant
                        o <= w <= blen == b@.len(),
                        skip_word_right(b@, o as int) == skip_word_right(b@, w as int),
                    decreases blen - w,
                {
                    w = w + 1;
                }
                Some((line, w))
            } else {
                Some((line, o + 1))
            }
        }
    }

    /// Moves the cursor by `m` (no selection change).
    pub fn move_local(&mut self, m: Motion, page_rows: usize)
        requires
            old(self).wf(),
        ensures
            final(self).wf(),
            (final(self).cursor.line as int, final(self).cursor.col as int)
                == motion_target(old(self).ls(), old(self).cursor, m, page_rows as int),
            final(self).doc == old(self).doc,
            final(self).anchor == old(self).anchor,
            final(self).bookmarks == old(self).bookmarks,
            final(self).undo_stack == old(self).undo_stack,
            final(self).redo_stack == old(self).redo_stack,
            final(self).typing_run == old(self).typing_run,
            final(self).block_sel == old(self).block_sel,
            final(self).saved_baseline == old(self).saved_baseline,
            final(self).extra_cursors == old(self).extra_cursors,
    {
        let line = self.cursor.line;
        let col = self.cursor.col;
        let last = self.doc.line_count() - 1;
        let page_rows = if page_rows == 0 { 1 } else { page_rows };
        let (nl, nc) = match m {
            Motion::Left => {
                if col > 0 { (line, col - 1) } else if line > 0 { (line - 1, self.doc.body_len(line - 1)) } else { (line, col) }
            },
            Motion::Right => {
                if col < self.doc.body_len(line) { (line, col + 1) } else if line < last { (line + 1, 0) } else { (line, col) }
            },
            Motion::Up => {
                if line > 0 {
                    let bl = self.doc.body_len(line - 1);
                    (line - 1, if col < bl { col } else { bl })
                } else {
                    (line, col)
                }
            },
            Motion::Down => {
                if line < last {
                    let bl = self.doc.body_len(line + 1);
                    (line + 1, if col < bl { col } else { bl })
                } else {
                    (line, col)
                }
            },
            Motion::Home | Motion::LogicalHome => (line, 0),
            Motion::End | Motion::LogicalEnd => (line, self.doc.body_len(line)),
            Motion::PageUp => {
                let l = if line >= page_rows { line - page_rows } else { 0 };
                let bl = self.doc.body_len(l);
                (l, if col < bl { col } else { bl })
            },
            Motion::PageDown => {
                let l = if page_rows < last - line { line + page_rows } else { last };
                let bl = self.doc.body_len(l);
                (l, if col < bl { col } else { bl })
            },
            Motion::DocStart => (0, 0),
            Motion::DocEnd => (last, self.doc.body_len(last)),
            Motion::WordLeft => match self.word_neighbor(true) {
                Some((l, c)) => (l, c),
                None => (line, col),
            },
            Motion::WordRight => match self.word_neighbor(false) {
                Some((l, c)) => (l, c),
                None => (line, col),
            },
        };
        proof {
            lemma_word_target_in(self.ls(), line as int, col as int);
        }
        self.cursor = CursorPos { line: nl, col: nc };
    }

    /// Applies a motion; with `extend` the selection runs from the anchor
    /// (set at the cursor if there was none) to the new cursor, otherwise
    /// the selection is dropped. Ends the typing run and the block. With
    /// extra cursors, a plain step left or right moves every cursor one
    /// character along its line (an extra cursor at the end of its way is
    /// dropped, the main one stays) and keeps the selection; any other
    /// motion drops the extra cursors first.
    pub fn apply_motion(&mut self, m: Motion, extend: bool, page_rows: usize)
        requires
            old(self).wf(),
        ensures
            final(self).wf(),
            old(self).extras_ok() ==> final(self).extras_ok(),
            ({
                let multi = old(self).extra_cursors@.len() > 0 && !extend && (m is Left || m is Right);
                &&& multi ==> final(self).cursor == main_step(old(self).ls(), old(self).cursor, m is Right)
                    && final(self).extra_cursors@ == stepped(old(self).ls(), old(self).extra_cursors@, m is Right)
                    && *final(self) == (EditorCore {
                        cursor: final(self).cursor,
                        extra_cursors: final(self).extra_cursors,
                        typing_run: None,
                        ..*old(self)
                    })
                &&& !multi ==> (final(self).cursor.line as int, final(self).cursor.col as int)
                    == motion_target(old(self).ls(), old(self).cursor, m, page_rows as int)
                    && final(self).anchor == (if extend {
                        if old(self).anchor is None { Some(old(self).cursor) } else { old(self).anchor }
                    } else { None })
                    && final(self).extra_cursors@.len() == 0
                    && final(self).typing_run is None
                    && final(self).block_sel is None
            }),
            final(self).doc == old(self).doc,
            final(self).bookmarks == old(self).bookmarks,
            final(self).undo_stack == old(self).undo_stack,
            final(self).redo_stack == old(self).redo_stack,
            final(self).saved_baseline == old(self).saved_baseline,
    {
        if self.extra_cursors.len() > 0 {
            if !extend {
                match m {
                    Motion::Left | Motion::Right => {
                        let right = match m {
                            Motion::Right => true,
                            _ => false,
                        };
                        self.typing_run = None;
                        let len = self.doc.body_len(self.cursor.line);
                        let col = self.cursor.col;
                        if right && col < len {
                            self.cursor = CursorPos { line: self.cursor.line, col: col + 1 };
                        } else if !right && col > 0 {
                            self.cursor = CursorPos { line: self.cursor.line, col: col - 1 };
                        }
                        self.multi_step_horizontal(right);
                        return;
                    },
                    _ => {},
                }
            }
            self.collapse_multi();
        }
        self.typing_run = None;
        self.block_dragging = false;
        self.block_sel = None;
        if extend && self.anchor.is_none() {
            self.anchor = Some(self.cursor);
        }
        if !extend {
            self.anchor = None;
        }
        self.move_local(m, page_rows);
    }

    /// Selects the whole document (anchor at the start, cursor at the end).
    pub fn select_all(&mut self)
        requires
            old(self).wf(),
        ensures
            final(self).wf(),
            final(self).anchor == Some(CursorPos { line: 0, col: 0 }),
            final(self).cursor.line == old(self).ls().len() - 1,
            final(self).cursor.col == old(self).ls().last().body.len(),
            final(self).doc == old(self).doc,
            final(self).bookmarks == old(self).bookmarks,
            final(self).undo_stack == old(self).undo_stack,
            final(self).redo_stack == old(self).redo_stack,
            final(self).typing_run is None,
            final(self).block_sel is None,
            final(self).extra_cursors@.len() == 0,
            final(self).saved_baseline == old(self).saved_baseline,
    {
        self.typing_run = None;
        self.block_dragging = false;
        self.block_sel = None;
        self.extra_cursors = Vec::new();
        let last = self.doc.line_count() - 1;
        self.anchor = Some(CursorPos { line: 0, col: 0 });
        self.cursor = CursorPos { line: last, col: self.doc.body_len(last) };
    }

    /// Selects `len_chars` characters from (`line`, `col`), a line break
    /// counting as one (see [`advance`]).
    pub fn select_span(&mut self, line: usize, col: usize, len_chars: usize)
        requires
            old(self).wf(),
            pos_in(old(self).ls(), CursorPos { line, col }),
        ensures
            final(self).wf(),
            final(self).anchor == Some(CursorPos { line, col }),
            (final(self).cursor.line as int, final(self).cursor.col as int)
                == advance(old(self).ls(), line as int, col as int, len_chars as int),
            final(self).doc == old(self).doc,
            final(self).bookmarks == old(self).bookmarks,
            final(self).undo_stack == old(self).undo_stack,
            final(self).redo_stack == old(self).redo_stack,
            final(self).typing_run is None,
            final(self).block_sel is None,
            final(self).saved_baseline == old(self).saved_baseline,
    {
        self.typing_run = None;
        self.block_dragging = false;
        self.block_sel = None;
        let count = self.doc.line_count();
        let mut cl = line;
        let mut cc = col;
        let mut remain = len_chars;
        while remain > 0
            invariant
                self.wf(),
                count == self.ls().len(),
                pos_in(self.ls(), CursorPos { line: cl, col: cc }),
                advance(self.ls(), line as int, col as int, len_chars as int)
                    == advance(self.ls(), cl as int, cc as int, remain as int),
            decreases remain,
        {
            let len = self.doc.body_len(cl);
            let room = if len > cc { len - cc } else { 0 };
            if room >= remain {
                cc = cc + remain;
                remain = 0;
            } else if cl + 1 < count {
                remain = remain - room - 1;
                cl = cl + 1;
                cc = 0;
            } else {
                cc = len;
                proof {
                    assert(advance(self.ls(), cl as int, len as int, 0) == (cl as int, len as int));
                }
                remain = 0;
            }
        }
        self.anchor = Some(CursorPos { line, col });
        self.cursor = CursorPos { line: cl, col: cc };
    }

    /// Puts the cursor back at (`line`, `col`), the line clamped to the
    /// document and the column to that line, without a selection; ends
    /// the typing run.
    pub fn restore_view(&mut self, line: usize, col: usize)
        requires
            old(self).wf(),
        ensures
            final(self).wf(),
            ({
                let n = old(self).ls().len();
                let l = if line < n - 1 { line as int } else { n - 1 };
                let b = old(self).ls()[l].body.len();
                *final(self) == (EditorCore {
                    cursor: CursorPos { line: l as usize, col: if col < b { col } else { b as usize } },
                    anchor: None,
                    typing_run: None,
                    ..*old(self)
                })
            }),
    {
        self.typing_run = None;
        let last = self.doc.line_count() - 1;
        let l = if line < last { line } else { last };
        let b = self.doc.body_len(l);
        let c = if col < b { col } else { b };
        self.anchor = None;
        self.cursor = CursorPos { line: l, col: c };
    }

    /// Jumps to the start of 1-based line `line_1based` (clamped to the
    /// document), dropping the selection.
    pub fn jump_to_line(&mut self, line_1based: usize)
        requires
            old(self).wf(),
        ensures
            final(self).wf(),
            final(self).cursor == (CursorPos {
                line: if line_1based == 0 { 0 } else if line_1based - 1 < old(self).ls().len() - 1 { (line_1based - 1) as usize } else { (old(self).ls().len() - 1) as usize },
                col: 0,
            }),
            final(self).anchor is None,
            final(self).doc == old(self).doc,
            final(self).bookmarks == old(self).bookmarks,
            final(self).undo_stack == old(self).undo_stack,
            final(self).redo_stack == old(self).redo_stack,
            final(self).typing_run is None,
            final(self).block_sel == old(self).block_sel,
            final(self).saved_baseline == old(self).saved_baseline,
    {
        self.typing_run = None;
        let last = self.doc.line_count() - 1;
        let t = if line_1based == 0 { 0 } else { line_1based - 1 };
        let target = if t < last { t } else { last };
        self.anchor = None;
        self.cursor = CursorPos { line: target, col: 0 };
    }
}

proof fn lemma_skip_bounds(b: Seq<char>, o: int)
    requires
        0 <= o <= b.len(),
    ensures
        0 <= skip_blank_left(b, o) <= o,
        0 <= skip_word_left(b, o) <= o,
        o <= skip_blank_right(b, o) <= b.len(),
        o <= skip_word_right(b, o) <= b.len(),
    decreases b.len() + o,
{
    if o > 0 && is_blank(b[o - 1]) {
        lemma_skip_bounds(b, o - 1);
    }
    if o > 0 && is_word_char(b[o - 1]) {
        lemma_skip_bounds(b, o - 1);
    }
    if o < b.len() {
        lemma_skip_right_bounds(b, o);
    }
}

proof fn lemma_skip_right_bounds(b: Seq<char>, o: int)
    requires
        0 <= o <= b.len(),
    ensures
        o <= skip_blank_right(b, o) <= b.len(),
        o <= skip_word_right(b, o) <= b.len(),
    decreases b.len() - o,
{
    if o < b.len() {
        lemma_skip_right_bounds(b, o + 1);
    }
}

proof fn lemma_skip_left_bounds(b: Seq<char>, o: int)
    requires
        0 <= o <= b.len(),
    ensures
        0 <= skip_blank_left(b, o) <= o,
        0 <= skip_word_left(b, o) <= o,
    decreases o,
{
    if o > 0 {
        lemma_skip_left_bounds(b, o - 1);
    }
}

/// Word-motion targets are positions on the document.
pub proof fn lemma_word_target_in(ls: Seq<LineV>, line: int, col: int)
    requires
        lines_wf(ls),
        0 <= line < ls.len(),
        0 <= col <= ls[line].body.len(),
    ensures
        forall|left: bool| #[trigger] word_target(ls, line, col, left) matches Some((l, c))
            ==> 0 <= l < ls.len() && 0 <= c <= ls[l].body.len(),
{
    reveal(lines_wf);
    let b = ls[line].body;
    lemma_skip_left_bounds(b, col);
    lemma_skip_right_bounds(b, col);
    let o = skip_blank_left(b, col);
    lemma_skip_left_bounds(b, o);
    let p = skip_blank_right(b, col);
    lemma_skip_right_bounds(b, p);
}

/// Skipping word characters rightwards stops at the first character that
/// is not one.
proof fn lemma_skip_word_right_run(b: Seq<char>, o: int)
    requires
        0 <= o <= b.len(),
    ensures
        o <= skip_word_right(b, o) <= b.len(),
        forall|j: int| o <= j < skip_word_right(b, o) ==> is_word_char(#[trigger] b[j]),
        skip_word_right(b, o) < b.len() ==> !is_word_char(b[skip_word_right(b, o)]),
    decreases b.len() - o,
{
    if o < b.len() && is_word_char(b[o]) {
        lemma_skip_word_right_run(b, o + 1);
    }
}

/// Skipping word characters leftwards stops after the last character
/// before the run that is not one.
proof fn lemma_skip_word_left_run(b: Seq<char>, o: int)
    requires
        0 <= o <= b.len(),
    ensures
        0 <= skip_word_left(b, o) <= o,
        forall|j: int| skip_word_left(b, o) <= j < o ==> is_word_char(#[trigger] b[j]),
        skip_word_left(b, o) > 0 ==> !is_word_char(b[skip_word_left(b, o) - 1]),
    decreases o,
{
    if o > 0 && is_word_char(b[o - 1]) {
        lemma_skip_word_left_run(b, o - 1);
    }
}

/// Word motion to the right from a letter, digit or `_` crosses the whole
/// identifier: it lands just after the run of letters, digits and `_`
/// that starts at the cursor (`foo_bar` is crossed in one step).
pub proof fn law_word_right_crosses_identifier(ls: Seq<LineV>, line: int, col: int)
    requires
        0 <= line < ls.len(),
        0 <= col < ls[line].body.len(),
        ls[line].body[col] != ' ' && ls[line].body[col] != '\t',
        unicode_alphanumeric(ls[line].body[col]) || ls[line].body[col] == '_',
    ensures
        word_target(ls, line, col, false) matches Some((l, e)) && l == line && col < e <= ls[line].body.len()
            && (forall|j: int| col <= j < e ==> unicode_alphanumeric(#[trigger] ls[line].body[j]) || ls[line].body[j] == '_')
            && (e == ls[line].body.len() || !(unicode_alphanumeric(ls[line].body[e]) || ls[line].body[e] == '_')),
{
    let b = ls[line].body;
    assert(skip_blank_right(b, col) == col);
    lemma_skip_word_right_run(b, col);
    lemma_skip_word_right_run(b, col + 1);
}

/// Word motion to the left from just after a letter, digit or `_` crosses
/// the whole identifier: it lands at the start of the run of letters,
/// digits and `_` that ends at the cursor.
pub proof fn law_word_left_crosses_identifier(ls: Seq<LineV>, line: int, col: int)
    requires
        0 <= line < ls.len(),
        0 < col <= ls[line].body.len(),
        ls[line].body[col - 1] != ' ' && ls[line].body[col - 1] != '\t',
        unicode_alphanumeric(ls[line].body[col - 1]) || ls[line].body[col - 1] == '_',
    ensures
        word_target(ls, line, col, true) matches Some((l, s)) && l == line && 0 <= s < col
            && (forall|j: int| s <= j < col ==> unicode_alphanumeric(#[trigger] ls[line].body[j]) || ls[line].body[j] == '_')
            && (s == 0 || !(unicode_alphanumeric(ls[line].body[s - 1]) || ls[line].body[s - 1] == '_')),
{
    let b = ls[line].body;
    assert(skip_blank_left(b, col) == col);
    lemma_skip_word_left_run(b, col);
    lemma_skip_word_left_run(b, col - 1);
}

} // verus!
