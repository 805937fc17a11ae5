//! Line operations that remove, copy or move whole lines, and case
//! conversion.

use vstd::prelude::*;
use crate::document::{lines_wf, lemma_text_of_len_lines, pos_of_offset, ending_chars, newline_chars, append_chars,
    lemma_line_in_text, lemma_line_start_mono, LineV, Eol, LineEnding, text_of, line_text, eol_chars, line_start, cr_ok, no_breaks,
    lemma_text_of_append, lemma_pos_round_trip};
use crate::linesplit::{one_ending, ending_eol, lemma_split_two, lemma_lines_unique};
use crate::editor::{EditorCore, CursorPos, push_capped, SnapV};
use crate::lineblock::{lemma_region, texts, bodies, join_lines, rebuild, join_with};
use crate::lineset::image;
use crate::marks::{removed_rows_map, shift_map, move_map, remap_removed_rows, remap_shift_below, remap_move_block};

verus! {

impl EditorCore {
    /// The offsets a line deletion removes: the touched lines with their
    /// breaks; for the empty line after a final line break (nothing to
    /// remove) the break before it instead.
    pub open spec fn del_range(&self) -> (int, int) {
        let (a, b) = self.touched();
        let start = self.doc.lstart(a);
        let end = self.region_end(b);
        if start == end && a > 0 { (self.doc.lstart(a - 1) + self.ls()[a - 1].body.len(), start) } else { (start, end) }
    }

    /// How many lines a line deletion removes.
    pub open spec fn del_rows(&self) -> int {
        let (a, b) = self.touched();
        if self.doc.lstart(a) == self.region_end(b) { 1 } else { b - a + 1 }
    }

    /// A line deletion has something to remove (not the lone empty line of
    /// an empty document).
    pub open spec fn del_applies(&self) -> bool {
        let (a, b) = self.touched();
        !(self.doc.lstart(a) == self.region_end(b) && a == 0)
    }

    /// The common outcome of an edit that replaced offsets `[s, e)` by
    /// `ins` as one undo entry, leaving no selection.
    pub open spec fn replaced(&self, post: &EditorCore, s: int, e: int, ins: Seq<char>) -> bool {
        &&& post.wf()
        &&& post.doc.text() == self.doc.text().take(s) + ins + self.doc.text().skip(e)
        &&& post.doc.ending == self.doc.ending
        &&& post.undo_view() == push_capped(self.undo_view(), self.snap())
        &&& post.redo_view() == Seq::<SnapV>::empty()
        &&& post.typing_run is None
        &&& post.anchor is None
        &&& post.block_sel == self.block_sel
        &&& post.saved_baseline == self.saved_baseline
        &&& post.overwrite == self.overwrite
        &&& post.focused == self.focused
        &&& post.syntax_name == self.syntax_name
    }

    /// Deletes the touched lines with their breaks (see
    /// [`Self::del_range`]); the cursor goes to where they were, bookmarks
    /// on them are dropped and those below move up. Returns whether
    /// anything was deleted.
    pub fn delete_current_lines(&mut self) -> (r: bool)
        requires
            old(self).wf(),
        ensures
            r == old(self).del_applies(),
            r ==> old(self).replaced(final(self), old(self).del_range().0, old(self).del_range().1, seq![]),
            r ==> (final(self).cursor.line as int, final(self).cursor.col as int) == pos_of_offset(final(self).ls(),
                if old(self).del_range().0 <= final(self).doc.text().len() { old(self).del_range().0 } else { final(self).doc.text().len() as int }),
            r ==> final(self).bookmarks.set() == image(old(self).bookmarks.set(),
                removed_rows_map(old(self).touched().0, old(self).del_rows())),
            !r ==> *final(self) == *old(self),
    {
        proof {
            self.lemma_touched();
        }
        let (a, b) = self.touched_lines();
        proof {
            lemma_region(self.ls(), a as int, b as int);
        }
        let start = self.doc.line_to_char(a);
        let end = self.region_end_of(b);
        let count = self.doc.line_count();
        assert(b < count);
        let (s, e, rows) = if start == end {
            if a == 0 {
                return false;
            }
            proof {
                lemma_line_in_text(self.ls(), a - 1);
            }
            let s = self.doc.line_to_char(a - 1) + self.doc.body_len(a - 1);
            (s, start, 1)
        } else {
            (start, end, b - a + 1)
        };
        assert(a + rows <= count);
        let marks = remap_removed_rows(&self.bookmarks, a, rows);
        self.snapshot();
        self.bookmarks = marks;
        let empty: Vec<char> = Vec::new();
        self.doc.replace_range(s, e, empty.as_slice());
        let len = self.doc.text_len();
        let at = if s <= len { s } else { len };
        let (l, c) = self.doc.char_to_pos(at);
        self.cursor = CursorPos { line: l, col: c };
        self.anchor = None;
        proof {
            assert(self.doc.text() =~= old(self).doc.text().take(s as int) + seq![] + old(self).doc.text().skip(e as int));
        }
        true
    }

    /// The text a line duplication inserts: the touched lines' region,
    /// after a dominant line break when the region does not end with one.
    pub open spec fn dup_text(&self) -> Seq<char> {
        let (a, b) = self.touched();
        let region = self.doc.text().subrange(self.doc.lstart(a), self.region_end(b));
        if self.tail_nl(a, b) { region } else { ending_chars(self.doc.ending) + region }
    }

    /// Duplicates the touched lines below themselves; the cursor goes to
    /// the start of the copy, bookmarks below the block move down (the copy
    /// carries none). Returns whether anything was copied (false for an
    /// empty region).
    pub fn duplicate_current_lines(&mut self) -> (r: bool)
        requires
            old(self).wf(),
            2 * old(self).doc.text().len() + 2 < isize::MAX,
        ensures
            ({
                let (a, b) = old(self).touched();
                let end = old(self).region_end(b);
                let at = if old(self).tail_nl(a, b) { end } else { end + ending_chars(old(self).doc.ending).len() };
                &&& r == (old(self).doc.lstart(a) < end)
                &&& r ==> old(self).replaced(final(self), end, end, old(self).dup_text())
                &&& r ==> (final(self).cursor.line as int, final(self).cursor.col as int) == pos_of_offset(final(self).ls(), at)
                &&& r ==> final(self).bookmarks.set() == image(old(self).bookmarks.set(), shift_map(b, b - a + 1))
            }),
            !r ==> *final(self) == *old(self),
    {
        proof {
            self.lemma_touched();
            lemma_text_of_len_lines(self.ls());
            reveal(lines_wf);
        }
        let (a, b) = self.touched_lines();
        proof {
            lemma_region(self.ls(), a as int, b as int);
        }
        let start = self.doc.line_to_char(a);
        let end = self.region_end_of(b);
        if start >= end {
            return false;
        }
        let count = self.doc.line_count();
        let phantom = b + 1 == count && a < b && self.doc.body_len(b) == 0;
        let tail = b + 1 < count || phantom;
        let region = self.doc.slice(start, end);
        let mut ins: Vec<char> = Vec::new();
        if !tail {
            ins = newline_chars(self.doc.ending);
        }
        let pre = ins.len();
        append_chars(&mut ins, region.as_slice());
        let marks = remap_shift_below(&self.bookmarks, b, (b - a + 1) as isize);
        self.snapshot();
        self.bookmarks = marks;
        self.doc.replace_range(end, end, ins.as_slice());
        let (l, c) = self.doc.char_to_pos(end + pre);
        self.cursor = CursorPos { line: l, col: c };
        self.anchor = None;
        proof {
            assert(ins@ == old(self).dup_text());
        }
        true
    }
}

/// Lines rotated by one: up, the first goes last; down, the last goes
/// first.
pub open spec fn rotated(ls: Seq<Seq<char>>, up: bool) -> Seq<Seq<char>> {
    if up { ls.skip(1).push(ls[0]) } else { seq![ls.last()] + ls.drop_last() }
}

/// Moving a block up and then back down (or down and back up) restores
/// the lines, and the bookmark moves undo each other: a line that moved
/// up with the block `a..=b` comes back when the block, now at
/// `a - 1..=b - 1`, moves down.
pub proof fn law_move_back(ls: Seq<Seq<char>>, a: int, b: int, l: usize)
    requires
        ls.len() >= 1,
        1 <= a <= b,
        b < usize::MAX,
    ensures
        rotated(rotated(ls, true), false) == ls,
        rotated(rotated(ls, false), true) == ls,
        ((move_map(a, b, true))(l) matches Some(m) && (move_map(a - 1, b - 1, false))(m) == Some(l)),
{
    assert(rotated(rotated(ls, true), false) =~= ls);
    assert(rotated(ls, false).skip(1) =~= ls.drop_last());
    assert(rotated(rotated(ls, false), true) =~= ls);
}

impl EditorCore {
    /// Whether the touched lines can move: not past the first or last line.
    pub open spec fn move_applies(&self, up: bool) -> bool {
        let (a, b) = self.touched();
        if up { a > 0 } else { b + 1 < self.ls().len() }
    }

    /// The touched lines and the neighbour they swap with.
    pub open spec fn move_span(&self, up: bool) -> (int, int) {
        let (a, b) = self.touched();
        if up { (a - 1, b) } else { (a, b + 1) }
    }

    /// The rewritten lines of a move.
    pub open spec fn moved_lines(&self, up: bool) -> Seq<Seq<char>> {
        rotated(bodies(self.ls(), self.move_span(up).0, self.move_span(up).1), up)
    }

    /// Whether the moved region is rebuilt with a final line break (it was
    /// not at the text's end).
    pub open spec fn move_tail(&self, up: bool) -> bool {
        self.region_end(self.move_span(up).1) < self.doc.text().len()
    }

    /// Where the first touched line starts after the move.
    pub open spec fn move_target(&self, up: bool) -> int {
        let (f, l) = self.move_span(up);
        if up { self.doc.lstart(f) } else { self.doc.lstart(f) + self.ls()[l].body.len() + ending_chars(self.doc.ending).len() }
    }

    /// Swaps the touched lines with the line above (`up`) or below; the
    /// region is rebuilt with the dominant ending. The cursor goes to the
    /// moved block's first line, keeping its column where the line is long
    /// enough; bookmarks follow their lines. Returns whether the lines
    /// moved (false at the document's first or last line).
    #[verifier::rlimit(40)]
    pub fn move_current_lines(&mut self, up: bool) -> (r: bool)
        requires
            old(self).wf(),
            old(self).rebuild_fits(old(self).move_span(up).0, old(self).move_span(up).1,
                old(self).moved_lines(up), old(self).move_tail(up)),
        ensures
            r == old(self).move_applies(up),
            r ==> old(self).replaced(final(self), old(self).doc.lstart(old(self).move_span(up).0),
                old(self).region_end(old(self).move_span(up).1),
                rebuild(old(self).moved_lines(up), ending_chars(old(self).doc.ending), old(self).move_tail(up))),
            r ==> final(self).cursor.line as int == pos_of_offset(final(self).ls(), old(self).move_target(up)).0,
            r ==> final(self).cursor.col == if old(self).cursor.col <= final(self).ls()[final(self).cursor.line as int].body.len() {
                old(self).cursor.col } else { final(self).ls()[final(self).cursor.line as int].body.len() as usize },
            r ==> final(self).bookmarks.set() == image(old(self).bookmarks.set(),
                move_map(old(self).touched().0, old(self).touched().1, up)),
            !r ==> *final(self) == *old(self),
    {
        proof {
            self.lemma_touched();
        }
        let count = self.doc.line_count();
        let (a, b) = self.touched_lines();
        let (first, last) = if up {
            if a == 0 {
                return false;
            }
            (a - 1, b)
        } else {
            if b + 1 >= count {
                return false;
            }
            (a, b + 1)
        };
        proof {
            lemma_region(self.ls(), first as int, last as int);
        }
        let keep_col = self.cursor.col;
        let rs = self.doc.line_to_char(first);
        let re = self.region_end_of(last);
        let len = self.doc.text_len();
        let lines = self.bodies_of(first, last);
        let ghost src = texts(lines@);
        let mut rot: Vec<Vec<char>> = Vec::new();
        let n = lines.len();
        if !up {
            rot.push(crate::strs::copy_chars(lines[n - 1].as_slice()));
        }
        let from: usize = if up { 1 } else { 0 };
        let to: usize = if up { n } else { n - 1 };
        let mut k = from;
        let ghost r0 = texts(rot@);
        while k < to
            invariant
                from <= k <= to <= n == lines@.len(),
                texts(rot@) == r0 + src.subrange(from as int, k as int),
                src == texts(lines@),
            decreases to - k,
        {
            let c = crate::strs::copy_chars(lines[k].as_slice());
            let ghost pr = texts(rot@);
            rot.push(c);
            proof {
                assert(texts(rot@) =~= pr.push(src[k as int]));
                assert(src.subrange(from as int, k + 1) =~= src.subrange(from as int, k as int).push(src[k as int]));
            }
            k = k + 1;
        }
        if up {
            let ghost pr = texts(rot@);
            rot.push(crate::strs::copy_chars(lines[0].as_slice()));
            proof {
                assert(texts(rot@) =~= pr.push(src[0]));
            }
        }
        proof {
            assert(src == bodies(old(self).ls(), first as int, last as int));
            assert(texts(rot@) =~= old(self).moved_lines(up));
        }
        let nl = newline_chars(self.doc.ending);
        let rebuilt = join_lines(&rot, &nl, re < len);
        let marks = remap_move_block(&self.bookmarks, a, b, up);
        let first_len = rot[0].len();
        proof {
            crate::lineblock::lemma_join_len(texts(rot@), nl@);
        }
        self.snapshot();
        self.bookmarks = marks;
        self.doc.replace_range(rs, re, rebuilt.as_slice());
        let p = if up { rs } else { rs + first_len + nl.len() };
        let (l, _c) = self.doc.char_to_pos(p);
        let bl = self.doc.body_len(l);
        self.cursor = CursorPos { line: l, col: if keep_col <= bl { keep_col } else { bl } };
        self.anchor = None;
        true
    }
}

/// Lines `k` and `k + 1` with their bodies swapped, the breaks in place.
pub open spec fn swap_next(ls: Seq<LineV>, k: int) -> Seq<LineV> {
    ls.update(k, LineV { body: ls[k + 1].body, eol: ls[k].eol })
        .update(k + 1, LineV { body: ls[k].body, eol: ls[k + 1].eol })
}

/// Two lines joined by the ending, with one more break when `tail`.
proof fn lemma_rebuild_two(x: Seq<char>, y: Seq<char>, nl: Seq<char>, tail: bool)
    ensures
        rebuild(seq![x, y], nl, tail) == x + nl + y + if tail { nl } else { Seq::<char>::empty() },
{
    assert(seq![x, y].drop_last() =~= seq![x]);
    assert(join_with(seq![x], nl) == x);
    assert(join_with(seq![x, y], nl) == join_with(seq![x], nl) + nl + seq![x, y].last());
    assert(rebuild(seq![x, y], nl, tail) =~= x + nl + y + if tail { nl } else { Seq::<char>::empty() });
}

/// Swapping two neighbouring bodies of a document with one kind of line
/// break leaves a well-formed document whose text has the two line texts
/// rewritten in place.
proof fn lemma_swap_next(ls: Seq<LineV>, k: int, e: LineEnding)
    requires
        lines_wf(ls),
        one_ending(ls, e),
        0 <= k,
        k + 1 < ls.len(),
    ensures
        lines_wf(swap_next(ls, k)),
        text_of(swap_next(ls, k)) == text_of(ls.take(k)) + (ls[k + 1].body + eol_chars(ls[k].eol))
            + (ls[k].body + eol_chars(ls[k + 1].eol)) + text_of(ls.skip(k + 2)),
        line_start(swap_next(ls, k), k) == line_start(ls, k),
{
    reveal(lines_wf);
    let n = ls.len() as int;
    let y = swap_next(ls, k);
    assert(y.take(k) =~= ls.take(k));
    assert(y.skip(k + 2) =~= ls.skip(k + 2));
    lemma_split_two(y, k);
    lemma_split_two(ls, k);
    assert(y.last() == y[n - 1]);
    assert(ls.last() == ls[n - 1]);
    assert forall|i: int| 0 <= i < y.len() - 1 implies #[trigger] cr_ok(y, i) by {
        assert(y[i].eol == ls[i].eol);
        assert(ls[i].eol == ending_eol(e));
    }
    assert forall|i: int| 0 <= i < y.len() implies no_breaks((#[trigger] y[i]).body)
        && (i < y.len() - 1 ==> y[i].eol != Eol::NoBreak) by {
        assert(y[i].eol == ls[i].eol);
        if i == k {
            assert(no_breaks(ls[k + 1].body));
        } else if i == k + 1 {
            assert(no_breaks(ls[k].body));
        } else {
            assert(y[i] == ls[i]);
        }
    }
}

/// The text after line `k + 1` is empty exactly when that line is the last
/// one, unless the next line is the empty last line.
proof fn lemma_rest_empty(ls: Seq<LineV>, k: int, e: LineEnding)
    requires
        lines_wf(ls),
        one_ending(ls, e),
        0 <= k,
        k + 1 < ls.len(),
        !(k + 2 == ls.len() - 1 && ls[k + 2].body.len() == 0),
    ensures
        (text_of(ls.skip(k + 2)).len() > 0) == (k + 2 < ls.len()),
        k + 2 < ls.len() ==> ls[k + 1].eol == ending_eol(e),
        k + 2 == ls.len() ==> ls[k + 1].eol == Eol::NoBreak,
{
    reveal(lines_wf);
    let n = ls.len() as int;
    assert(ls.last() == ls[n - 1]);
    if k + 2 < n {
        let one = seq![ls[k + 2]];
        assert(ls.skip(k + 2) =~= one + ls.skip(k + 3));
        lemma_text_of_append(one, ls.skip(k + 3));
        assert(one.drop_last() =~= Seq::<LineV>::empty());
        assert(text_of(one) == text_of(one.drop_last()) + line_text(one.last()));
        if k + 2 < n - 1 {
            assert(ls[k + 2].eol == ending_eol(e));
        }
    } else {
        assert(ls.skip(k + 2) =~= Seq::<LineV>::empty());
    }
}

/// Rewriting lines `k` and `k + 1` of a document with one kind of line
/// break as the two bodies swapped, joined by the ending (and followed by it
/// when text follows), leaves the lines with those bodies swapped.
proof fn lemma_swapped_lines(ls: Seq<LineV>, pl: Seq<LineV>, k: int, e: LineEnding, tail: bool)
    requires
        lines_wf(ls),
        lines_wf(pl),
        one_ending(ls, e),
        0 <= k,
        k + 1 < ls.len(),
        !(k + 2 == ls.len() - 1 && ls[k + 2].body.len() == 0),
        tail == (line_start(ls, k + 2) < text_of(ls).len()),
        text_of(pl) == text_of(ls).take(line_start(ls, k)) + rebuild(seq![ls[k + 1].body, ls[k].body],
            ending_chars(e), tail) + text_of(ls).skip(line_start(ls, k + 2)),
    ensures
        pl == swap_next(ls, k),
{
    let n = ls.len() as int;
    let nl = ending_chars(e);
    let ee = ending_eol(e);
    assert(eol_chars(ee) == nl);
    let t = text_of(ls);
    lemma_split_two(ls, k);
    lemma_rest_empty(ls, k, e);
    let a = text_of(ls.take(k));
    let z = text_of(ls.skip(k + 2));
    assert(t.take(line_start(ls, k)) =~= a);
    assert(t.skip(line_start(ls, k + 2)) =~= z);
    assert(tail == (k + 2 < n));
    lemma_rebuild_two(ls[k + 1].body, ls[k].body, nl, tail);
    assert(ls[k].eol == ee);
    lemma_swap_next(ls, k, e);
    assert(text_of(pl) =~= text_of(swap_next(ls, k)));
    lemma_lines_unique(pl, swap_next(ls, k));
}

impl EditorCore {
    /// Moving line `k + 1` up past line `k` (or line `k` down past it) of a
    /// document with one kind of line break swaps the two bodies and keeps
    /// everything else.
    proof fn lemma_move_swaps(&self, post: &EditorCore, k: int, up: bool)
        requires
            self.wf(),
            self.anchor is None,
            self.cursor.line == if up { k + 1 } else { k },
            0 <= k,
            k + 1 < self.ls().len(),
            one_ending(self.ls(), self.doc.ending),
            !(k + 2 == self.ls().len() - 1 && self.ls()[k + 2].body.len() == 0),
            self.replaced(post, self.doc.lstart(self.move_span(up).0), self.region_end(self.move_span(up).1),
                rebuild(self.moved_lines(up), ending_chars(self.doc.ending), self.move_tail(up))),
        ensures
            post.ls() == swap_next(self.ls(), k),
    {
        let ls = self.ls();
        lemma_split_two(ls, k);
        assert(self.move_span(up) == (k, k + 1));
        assert(self.region_end(k + 1) == line_start(ls, k + 2));
        assert(bodies(ls, k, k + 1) =~= seq![ls[k].body, ls[k + 1].body]);
        assert(self.moved_lines(up) =~= seq![ls[k + 1].body, ls[k].body]);
        lemma_swapped_lines(ls, post.ls(), k, self.doc.ending, self.move_tail(up));
    }
}

/// Moving a line up and then back down restores the document's text and
/// its bookmarks, for a document with one kind of line break; the move
/// down always applies. Left out: moving up the line just before the empty
/// line after a final line break, which takes that break away (see
/// [`EditorCore::move_current_lines`]).
pub proof fn law_move_up_then_down(e: &EditorCore, m: &EditorCore, f: &EditorCore, r2: bool)
    requires
        e.wf(),
        e.anchor is None,
        e.cursor.line > 0,
        one_ending(e.ls(), e.doc.ending),
        !(e.cursor.line + 1 == e.ls().len() - 1 && e.ls().last().body.len() == 0),
        e.replaced(m, e.doc.lstart(e.move_span(true).0), e.region_end(e.move_span(true).1),
            rebuild(e.moved_lines(true), ending_chars(e.doc.ending), e.move_tail(true))),
        m.cursor.line as int == pos_of_offset(m.ls(), e.move_target(true)).0,
        m.bookmarks.set() == image(e.bookmarks.set(), move_map(e.touched().0, e.touched().1, true)),
        r2 == m.move_applies(false),
        r2 ==> m.replaced(f, m.doc.lstart(m.move_span(false).0), m.region_end(m.move_span(false).1),
            rebuild(m.moved_lines(false), ending_chars(m.doc.ending), m.move_tail(false))),
        r2 ==> f.bookmarks.set() == image(m.bookmarks.set(), move_map(m.touched().0, m.touched().1, false)),
        !r2 ==> *f == *m,
    ensures
        r2,
        f.doc.text() == e.doc.text(),
        f.bookmarks.set() == e.bookmarks.set(),
{
    let ls = e.ls();
    let n = ls.len() as int;
    let c = e.cursor.line as int;
    let k = c - 1;
    lemma_text_of_len_lines(ls);
    assert(e.touched() == (c, c));
    assert(e.ls().last() == ls[n - 1]);
    e.lemma_move_swaps(m, k, true);
    let y = swap_next(ls, k);
    // the cursor lands on the moved line
    lemma_swap_next(ls, k, e.doc.ending);
    assert(e.move_target(true) == line_start(y, k));
    lemma_pos_round_trip(y, k, 0);
    assert(m.cursor.line == k);
    assert(m.touched() == (k, k));
    assert(r2);
    // moving it back down swaps the bodies back
    assert(m.ls().len() == n);
    assert(one_ending(m.ls(), m.doc.ending)) by {
        assert forall|i: int| 0 <= i < n - 1 implies (#[trigger] m.ls()[i]).eol == ending_eol(m.doc.ending) by {
            assert(m.ls()[i].eol == ls[i].eol);
        }
    }
    if k + 2 < n {
        assert(m.ls()[k + 2] == ls[k + 2]);
    }
    m.lemma_move_swaps(f, k, false);
    assert(swap_next(y, k) =~= ls);
    assert(f.ls() == ls);
    // bookmarks: each one moves up with the block and back down again
    let bm = e.bookmarks.set();
    let fwd = move_map(c, c, true);
    let back = move_map(k, k, false);
    assert(f.bookmarks.set() =~= bm) by {
        assert forall|x: usize| #[trigger] f.bookmarks.set().contains(x) implies bm.contains(x) by {
            let yv = choose|yv: usize| m.bookmarks.set().contains(yv) && back(yv) == Some(x);
            let l = choose|l: usize| bm.contains(l) && fwd(l) == Some(yv);
            law_move_back(seq![Seq::<char>::empty()], c, c, l);
        }
        assert forall|x: usize| bm.contains(x) implies #[trigger] f.bookmarks.set().contains(x) by {
            law_move_back(seq![Seq::<char>::empty()], c, c, x);
            let yv = fwd(x)->0;
            assert(m.bookmarks.set().contains(yv));
        }
    }
}

/// Moving a line down and then back up restores the document's text and
/// its bookmarks, for a document with one kind of line break; the move up
/// always applies. Left out: moving down the line two before the empty line
/// after a final line break, which takes that break away (see
/// [`EditorCore::move_current_lines`]).
pub proof fn law_move_down_then_up(e: &EditorCore, m: &EditorCore, f: &EditorCore, r2: bool)
    requires
        e.wf(),
        e.anchor is None,
        e.cursor.line + 1 < e.ls().len(),
        one_ending(e.ls(), e.doc.ending),
        !(e.cursor.line + 2 == e.ls().len() - 1 && e.ls().last().body.len() == 0),
        e.replaced(m, e.doc.lstart(e.move_span(false).0), e.region_end(e.move_span(false).1),
            rebuild(e.moved_lines(false), ending_chars(e.doc.ending), e.move_tail(false))),
        m.cursor.line as int == pos_of_offset(m.ls(), e.move_target(false)).0,
        m.bookmarks.set() == image(e.bookmarks.set(), move_map(e.touched().0, e.touched().1, false)),
        r2 == m.move_applies(true),
        r2 ==> m.replaced(f, m.doc.lstart(m.move_span(true).0), m.region_end(m.move_span(true).1),
            rebuild(m.moved_lines(true), ending_chars(m.doc.ending), m.move_tail(true))),
        r2 ==> f.bookmarks.set() == image(m.bookmarks.set(), move_map(m.touched().0, m.touched().1, true)),
        !r2 ==> *f == *m,
    ensures
        r2,
        f.doc.text() == e.doc.text(),
        f.bookmarks.set() == e.bookmarks.set(),
{
    reveal(lines_wf);
    let ls = e.ls();
    let n = ls.len() as int;
    let k = e.cursor.line as int;
    lemma_text_of_len_lines(ls);
    assert(e.touched() == (k, k));
    assert(e.ls().last() == ls[n - 1]);
    e.lemma_move_swaps(m, k, false);
    let y = swap_next(ls, k);
    // the cursor lands on the moved line, now the second of the two
    lemma_swap_next(ls, k, e.doc.ending);
    assert(ls[k].eol == ending_eol(e.doc.ending));
    assert(eol_chars(ending_eol(e.doc.ending)) == ending_chars(e.doc.ending));
    lemma_line_in_text(y, k);
    assert(e.move_target(false) == line_start(y, k + 1));
    lemma_pos_round_trip(y, k + 1, 0);
    assert(m.cursor.line == k + 1);
    assert(m.touched() == (k + 1, k + 1));
    assert(r2);
    // moving it back up swaps the bodies back
    assert(m.ls().len() == n);
    assert(one_ending(m.ls(), m.doc.ending)) by {
        assert forall|i: int| 0 <= i < n - 1 implies (#[trigger] m.ls()[i]).eol == ending_eol(m.doc.ending) by {
            assert(m.ls()[i].eol == ls[i].eol);
        }
    }
    if k + 2 < n {
        assert(m.ls()[k + 2] == ls[k + 2]);
    }
    m.lemma_move_swaps(f, k, true);
    assert(swap_next(y, k) =~= ls);
    assert(f.ls() == ls);
    // bookmarks: each one moves down with the line and back up again
    let bm = e.bookmarks.set();
    let fwd = move_map(k, k, false);
    let back = move_map(k + 1, k + 1, true);
    assert forall|l: usize| (#[trigger] fwd(l)) matches Some(v) && back(v) == Some(l) by {}
    assert(f.bookmarks.set() =~= bm) by {
        assert forall|x: usize| #[trigger] f.bookmarks.set().contains(x) implies bm.contains(x) by {
            let yv = choose|yv: usize| m.bookmarks.set().contains(yv) && back(yv) == Some(x);
            let l = choose|l: usize| bm.contains(l) && fwd(l) == Some(yv);
            assert(fwd(l) matches Some(v) && back(v) == Some(l));
        }
        assert forall|x: usize| bm.contains(x) implies #[trigger] f.bookmarks.set().contains(x) by {
            assert(fwd(x) matches Some(v) && back(v) == Some(x));
            let yv = fwd(x)->0;
            assert(m.bookmarks.set().contains(yv));
        }
    }
}

} // verus!
