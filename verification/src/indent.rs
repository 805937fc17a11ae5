//! Block indent and outdent (Tab / Shift+Tab): every touched line gains a
//! tab, or loses one tab or up to a tab stop of leading spaces; the
//! selection moves with the text.

use vstd::prelude::*;
use crate::document::{LineV, lines_wf};
use crate::editor::{EditorCore, CursorPos, push_capped, SnapV, pos_in};
use crate::lineblock::{texts, bodies, lemma_region};
use crate::lineops::{identity_map, lemma_id_map_image};
use crate::metrics::TAB_STOP_COLS;

verus! {

/// A line with a tab put before it.
pub open spec fn indented(s: Seq<char>) -> Seq<char> {
    seq!['\t'] + s
}

/// The end of the run of spaces that starts at `i`, looked at no further
/// than `k`.
pub open spec fn space_run_from(s: Seq<char>, i: int, k: int) -> int
    decreases k - i,
{
    if i >= k || i >= s.len() || i < 0 || s[i] != ' ' {
        i
    } else {
        space_run_from(s, i + 1, k)
    }
}

/// How many characters outdenting takes off the front of a line: one
/// leading tab, else the leading spaces up to one tab stop.
pub open spec fn outdent_cut(s: Seq<char>) -> int {
    if s.len() > 0 && s[0] == '\t' {
        1
    } else {
        space_run_from(s, 0, TAB_STOP_COLS as int)
    }
}

/// A line outdented.
pub open spec fn outdented(s: Seq<char>) -> Seq<char> {
    s.skip(outdent_cut(s))
}

/// A line indented or outdented.
pub open spec fn shifted_line(s: Seq<char>, outdent: bool) -> Seq<char> {
    if outdent { outdented(s) } else { indented(s) }
}

/// Where column `col` of a line with body `s` goes: outdenting moves it
/// left by what was cut (not past the line's start); indenting moves a
/// column past the start right by one and leaves the start where it is.
pub open spec fn shifted_col(col: int, s: Seq<char>, outdent: bool) -> int {
    if outdent {
        if col <= outdent_cut(s) { 0 } else { col - outdent_cut(s) }
    } else if col == 0 {
        0
    } else {
        col + 1
    }
}

/// Outdenting a line that was just indented gives the line back, blank
/// lines included; a column moved right by the indent comes back to where
/// it was.
pub proof fn law_outdent_undoes_indent(s: Seq<char>, col: int)
    requires
        0 <= col,
    ensures
        outdented(indented(s)) == s,
        shifted_col(shifted_col(col, s, false), indented(s), true) == col,
{
    assert(indented(s)[0] == '\t');
    assert(indented(s).skip(1) =~= s);
}

/// Outdenting takes away only leading white space, never more than a tab
/// stop, and a line without leading tab or space is left as it is.
pub proof fn law_outdent_cuts_leading_blank(s: Seq<char>)
    ensures
        0 <= outdent_cut(s) <= TAB_STOP_COLS,
        outdent_cut(s) <= s.len(),
        forall|i: int| 0 <= i < outdent_cut(s) ==> #[trigger] s[i] == ' ' || s[i] == '\t',
        (s.len() == 0 || (s[0] != ' ' && s[0] != '\t')) ==> outdented(s) == s,
{
    lemma_space_run_bounds(s, 0, TAB_STOP_COLS as int);
    lemma_space_run_spaces(s, 0, TAB_STOP_COLS as int);
    if s.len() == 0 || (s[0] != ' ' && s[0] != '\t') {
        assert(s.skip(0) =~= s);
    }
}

/// The run of spaces holds spaces only and is no longer than the limit.
proof fn lemma_space_run_spaces(s: Seq<char>, i: int, k: int)
    requires
        0 <= i <= k,
    ensures
        space_run_from(s, i, k) <= k,
        forall|j: int| i <= j < space_run_from(s, i, k) ==> #[trigger] s[j] == ' ',
    decreases k - i,
{
    if !(i >= k || i >= s.len() || s[i] != ' ') {
        lemma_space_run_spaces(s, i + 1, k);
    }
}

/// `line`/`col` kept inside the lines `ls`.
pub open spec fn clamp_pos(ls: Seq<LineV>, line: int, col: int) -> CursorPos {
    let l = if line < ls.len() { line } else { ls.len() - 1 };
    let c = if col <= ls[l].body.len() { col } else { ls[l].body.len() as int };
    CursorPos { line: l as usize, col: c as usize }
}

/// A run of spaces ends inside the line.
proof fn lemma_space_run_bounds(s: Seq<char>, i: int, k: int)
    requires
        0 <= i <= s.len(),
    ensures
        i <= space_run_from(s, i, k) <= s.len(),
    decreases k - i,
{
    if !(i >= k || i >= s.len() || s[i] != ' ') {
        lemma_space_run_bounds(s, i + 1, k);
    }
}

/// The run of spaces at the front of `s`, up to one tab stop.
proof fn lemma_space_run(s: Seq<char>, i: int, k: int)
    requires
        0 <= i <= k,
        forall|j: int| 0 <= j < i ==> s[j] == ' ',
        i <= s.len(),
    ensures
        space_run_from(s, 0, k) == space_run_from(s, i, k),
    decreases i,
{
    if i > 0 {
        lemma_space_run(s, i - 1, k);
    }
}

/// How much outdenting cuts from `s`.
fn outdent_cut_of(s: &[char]) -> (r: usize)
    ensures
        r == outdent_cut(s@),
        r <= s@.len(),
{
    if s.len() > 0 && s[0] == '\t' {
        return 1;
    }
    let mut j: usize = 0;
    while j < TAB_STOP_COLS && j < s.len() && s[j] == ' '
        invariant
            j <= TAB_STOP_COLS,
            j <= s@.len(),
            forall|i: int| 0 <= i < j ==> s@[i] == ' ',
        decreases TAB_STOP_COLS - j,
    {
        j = j + 1;
    }
    proof {
        lemma_space_run(s@, j as int, TAB_STOP_COLS as int);
    }
    j
}

/// A line indented or outdented.
fn shift_line(s: &[char], outdent: bool) -> (r: Vec<char>)
    ensures
        r@ == shifted_line(s@, outdent),
{
    let mut out: Vec<char> = Vec::new();
    let from = if outdent { outdent_cut_of(s) } else {
        out.push('\t');
        0
    };
    let mut i = from;
    proof {
        assert(out@ + s@.subrange(from as int, i as int) =~= out@);
    }
    let ghost head = out@;
    while i < s.len()
        invariant
            from <= i <= s@.len(),
            out@ == head + s@.subrange(from as int, i as int),
        decreases s@.len() - i,
    {
        out.push(s[i]);
        i = i + 1;
        proof {
            assert(out@ =~= head + s@.subrange(from as int, i as int));
        }
    }
    proof {
        if outdent {
            assert(out@ =~= outdented(s@));
        } else {
            assert(out@ =~= indented(s@));
        }
    }
    out
}

/// The lines indented or outdented, and whether that left them as they
/// were.
fn shift_block(lines: &Vec<Vec<char>>, outdent: bool) -> (r: (Vec<Vec<char>>, bool))
    ensures
        texts(r.0@) == texts(lines@).map_values(|s: Seq<char>| shifted_line(s, outdent)),
        r.1 == (texts(r.0@) == texts(lines@)),
{
    let n = lines.len();
    let ghost src = texts(lines@);
    let mut out: Vec<Vec<char>> = Vec::new();
    let mut same = true;
    let mut i: usize = 0;
    proof {
        assert(texts(out@) =~= src.map_values(|s: Seq<char>| shifted_line(s, outdent)).take(0));
        assert(src.take(0) =~= texts(out@));
    }
    while i < n
        invariant
            i <= n == lines@.len(),
            src == texts(lines@),
            texts(out@) == src.map_values(|s: Seq<char>| shifted_line(s, outdent)).take(i as int),
            same == (texts(out@) == src.take(i as int)),
        decreases n - i,
    {
        let line = shift_line(lines[i].as_slice(), outdent);
        let eq = line.len() == lines[i].len();
        let ghost prev = texts(out@);
        let ghost lv = line@;
        proof {
            let s = src[i as int];
            assert(s == lines@[i as int]@);
            if outdent {
                assert(eq == (lv == s)) by {
                    if eq {
                        lemma_space_run_bounds(s, 0, TAB_STOP_COLS as int);
                        assert(outdent_cut(s) == 0);
                        assert(s.skip(0) =~= s);
                    }
                }
            } else {
                assert(!eq && lv != s);
            }
        }
        out.push(line);
        proof {
            assert(texts(out@) =~= prev.push(lv));
            let m = src.map_values(|s: Seq<char>| shifted_line(s, outdent));
            assert(m.take(i + 1) =~= m.take(i as int).push(lv));
            assert(src.take(i + 1) =~= src.take(i as int).push(src[i as int]));
            if same && eq {
                assert(texts(out@) =~= src.take(i + 1));
            } else if !eq {
                assert(texts(out@)[i as int] != src.take(i + 1)[i as int]);
            } else {
                assert(texts(out@).drop_last() =~= prev);
                assert(src.take(i + 1).drop_last() =~= src.take(i as int));
            }
        }
        same = same && eq;
        i = i + 1;
    }
    proof {
        assert(src.take(n as int) =~= src);
        assert(src.map_values(|s: Seq<char>| shifted_line(s, outdent)).take(n as int)
            =~= src.map_values(|s: Seq<char>| shifted_line(s, outdent)));
    }
    (out, same)
}

impl EditorCore {
    /// The lines Tab / Shift+Tab works on: the touched lines with a
    /// selection, the cursor's line without one.
    pub open spec fn indent_scope(&self) -> (int, int) {
        if self.anchor is Some { self.touched() } else { (self.cursor.line as int, self.cursor.line as int) }
    }

    /// The bodies indent or outdent rewrites (the empty line after a final
    /// line break left out of a longer block).
    pub open spec fn indent_bodies(&self) -> Seq<Seq<char>> {
        bodies(self.ls(), self.indent_scope().0, self.block_last(self.indent_scope().0, self.indent_scope().1))
    }

    /// Those bodies indented or outdented.
    pub open spec fn indent_new(&self, outdent: bool) -> Seq<Seq<char>> {
        self.indent_bodies().map_values(|s: Seq<char>| shifted_line(s, outdent))
    }

    /// The column where `p` goes (before it is kept inside its line).
    pub open spec fn indent_col(&self, p: CursorPos, outdent: bool) -> int {
        let a = self.indent_scope().0;
        let last = self.block_last(a, self.indent_scope().1);
        if a <= p.line <= last { shifted_col(p.col as int, self.ls()[p.line as int].body, outdent) } else { p.col as int }
    }

    /// The rewritten text fits in memory.
    pub open spec fn indent_fits(&self, outdent: bool) -> bool {
        let (a, b) = self.indent_scope();
        self.rebuild_fits(a, b, self.indent_new(outdent), self.tail_nl(a, b))
    }

    /// What indenting or outdenting the block leaves: the rewritten text in
    /// one undo entry, bookmarks where they were, the cursor and the
    /// selection's anchor moved with their text.
    pub open spec fn indent_applied(&self, post: &EditorCore, outdent: bool) -> bool {
        let (a, b) = self.indent_scope();
        &&& post.wf()
        &&& post.doc.text() == self.text_with_block(a, b, self.indent_new(outdent), self.tail_nl(a, b))
        &&& post.doc.ending == self.doc.ending
        &&& post.undo_view() == push_capped(self.undo_view(), self.snap())
        &&& post.redo_view() == Seq::<SnapV>::empty()
        &&& post.typing_run is None
        &&& post.bookmarks.set() == self.bookmarks.set()
        &&& post.cursor == clamp_pos(post.ls(), self.cursor.line as int, self.indent_col(self.cursor, outdent))
        &&& post.anchor == match self.anchor {
            Some(p) => Some(clamp_pos(post.ls(), p.line as int, self.indent_col(p, outdent))),
            None => None,
        }
        &&& post.block_sel == self.block_sel
        &&& post.saved_baseline == self.saved_baseline
    }

    /// `line`/`col` kept inside the document.
    fn clamped_pos(&self, line: usize, col: usize) -> (r: CursorPos)
        requires
            self.wf(),
        ensures
            r == clamp_pos(self.ls(), line as int, col as int),
    {
        proof {
            reveal(lines_wf);
        }
        let n = self.doc.line_count();
        let l = if line < n { line } else { n - 1 };
        let bl = self.doc.body_len(l);
        CursorPos { line: l, col: if col <= bl { col } else { bl } }
    }

    /// The column where `p` goes (see [`Self::indent_col`]).
    fn indent_col_of(&self, p: CursorPos, a: usize, last: usize, outdent: bool) -> (r: usize)
        requires
            self.wf(),
            pos_in(self.ls(), p),
            a as int == self.indent_scope().0,
            last as int == self.block_last(self.indent_scope().0, self.indent_scope().1),
            last < self.ls().len(),
        ensures
            r as int == self.indent_col(p, outdent),
    {
        proof {
            crate::document::lemma_line_in_text(self.ls(), p.line as int);
            assert(crate::document::line_text(self.ls()[p.line as int]).len() >= self.ls()[p.line as int].body.len());
        }
        if a <= p.line && p.line <= last {
            if outdent {
                let body = self.doc.body_chars(p.line);
                let cut = outdent_cut_of(body.as_slice());
                if p.col <= cut { 0 } else { p.col - cut }
            } else if p.col == 0 {
                0
            } else {
                p.col + 1
            }
        } else {
            p.col
        }
    }

    /// Tab / Shift+Tab. Without a selection Tab types a tab at the cursor.
    /// Otherwise every touched line (the cursor's line, without a selection)
    /// gains a leading tab (`outdent` false) or loses one leading tab or up to
    /// a tab stop of leading spaces (`outdent` true), in one undo entry; the
    /// cursor and the selection's anchor move with their text. Returns
    /// whether anything changed.
    pub fn indent_touched_lines(&mut self, outdent: bool) -> (r: bool)
        requires
            old(self).wf(),
            old(self).anchor is None && !outdent ==> old(self).doc.text().len() + 3 < isize::MAX,
            old(self).anchor is Some || outdent ==> old(self).indent_fits(outdent),
        ensures
            old(self).anchor is None && !outdent ==> r && old(self).insert_outcome(final(self), seq!['\t']),
            old(self).anchor is Some || outdent ==> {
                &&& r == (old(self).indent_new(outdent) != old(self).indent_bodies())
                &&& r ==> old(self).indent_applied(final(self), outdent)
                &&& !r ==> *final(self) == *old(self)
            },
    {
        if self.anchor.is_none() && !outdent {
            let tab: Vec<char> = vec!['\t'];
            assert(tab@ =~= seq!['\t']);
            self.insert_chars(&tab);
            return true;
        }
        proof {
            self.lemma_touched();
        }
        let (a, b) = if self.anchor.is_some() { self.touched_lines() } else { (self.cursor.line, self.cursor.line) };
        let blk = self.line_block_at(a, b);
        let n = blk.lines.len();
        let (out, same) = shift_block(&blk.lines, outdent);
        if same {
            return false;
        }
        proof {
            lemma_region(self.ls(), a as int, b as int);
            reveal(lines_wf);
        }
        let count = self.doc.line_count();
        let last = if blk.b == count - 1 && blk.a < blk.b && self.doc.body_len(blk.b) == 0 {
            blk.b - 1
        } else {
            blk.b
        };
        let old_cursor = self.cursor;
        let old_anchor = self.anchor;
        let ccol = self.indent_col_of(old_cursor, a, last, outdent);
        let acol = match old_anchor {
            Some(p) => Some(self.indent_col_of(p, a, last, outdent)),
            None => None,
        };
        let map = identity_map(n);
        self.apply_line_block(&blk, &out, &map);
        proof {
            lemma_id_map_image(old(self).bookmarks.set(), a as int, n as nat);
        }
        self.cursor = self.clamped_pos(old_cursor.line, ccol);
        self.anchor = match old_anchor {
            Some(p) => Some(self.clamped_pos(p.line, acol.unwrap())),
            None => None,
        };
        true
    }
}

} // verus!
