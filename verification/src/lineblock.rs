//! Line blocks: the lines touched by the cursor or selection (or the whole
//! document), taken out as bodies, transformed, and written back joined by
//! the document's dominant line ending.

use vstd::prelude::*;
use crate::document::{LineV, lines_wf, text_of, line_start, ending_chars, append_chars, newline_chars,
    lemma_line_start_mono, lemma_line_in_text, lemma_last_line_start, lemma_pos_round_trip, Eol};
use crate::editor::{EditorCore, CursorPos, pos_in, push_capped, SnapV, edit_frame};
use crate::lineset::{LineSet, image};
use crate::marks::{block_map, remap_block_mapping};

verus! {

/// The texts of a vector of lines.
pub open spec fn texts(v: Seq<Vec<char>>) -> Seq<Seq<char>> {
    v.map_values(|x: Vec<char>| x@)
}

/// The lines `ls` joined by `nl`.
pub open spec fn join_with(ls: Seq<Seq<char>>, nl: Seq<char>) -> Seq<char>
    decreases ls.len(),
{
    if ls.len() == 0 {
        seq![]
    } else if ls.len() == 1 {
        ls[0]
    } else {
        join_with(ls.drop_last(), nl) + nl + ls.last()
    }
}

/// A block's new text: the lines joined by `nl`, and one more `nl` after
/// them when `tail`.
pub open spec fn rebuild(ls: Seq<Seq<char>>, nl: Seq<char>, tail: bool) -> Seq<char> {
    if tail { join_with(ls, nl) + nl } else { join_with(ls, nl) }
}

/// The bodies of lines `a..=b`.
pub open spec fn bodies(ls: Seq<LineV>, a: int, b: int) -> Seq<Seq<char>> {
    Seq::new((b + 1 - a) as nat, |i: int| ls[a + i].body)
}

/// Joins `lines` with `nl`, adding one more `nl` when `tail`.
pub fn join_lines(lines: &Vec<Vec<char>>, nl: &Vec<char>, tail: bool) -> (r: Vec<char>)
    ensures
        r@ == rebuild(texts(lines@), nl@, tail),
{
    let mut out: Vec<char> = Vec::new();
    let mut i: usize = 0;
    while i < lines.len()
        invariant
            i <= lines@.len(),
            out@ == join_with(texts(lines@).take(i as int), nl@),
        decreases lines@.len() - i,
    {
        proof {
            let t = texts(lines@).take(i + 1);
            assert(t.drop_last() =~= texts(lines@).take(i as int));
            assert(t.last() == lines@[i as int]@);
        }
        if i > 0 {
            append_chars(&mut out, nl.as_slice());
        }
        append_chars(&mut out, lines[i].as_slice());
        i = i + 1;
    }
    proof {
        assert(texts(lines@).take(i as int) =~= texts(lines@));
    }
    if tail {
        append_chars(&mut out, nl.as_slice());
    }
    out
}

/// Whether two line vectors hold the same lines.
pub fn same_lines(a: &Vec<Vec<char>>, b: &Vec<Vec<char>>) -> (r: bool)
    ensures
        r == (texts(a@) == texts(b@)),
{
    if a.len() != b.len() {
        return false;
    }
    let mut i: usize = 0;
    while i < a.len()
        invariant
            i <= a@.len() == b@.len(),
            forall|j: int| 0 <= j < i ==> texts(a@)[j] == texts(b@)[j],
        decreases a@.len() - i,
    {
        if !crate::strs::same_chars(a[i].as_slice(), b[i].as_slice()) {
            assert(texts(a@)[i as int] != texts(b@)[i as int]);
            return false;
        }
        i = i + 1;
    }
    proof {
        assert(texts(a@) =~= texts(b@));
    }
    true
}

/// Joined lines are at least as long as the first line, and for two or
/// more lines, the first line and a separator.
pub proof fn lemma_join_len(ls: Seq<Seq<char>>, nl: Seq<char>)
    ensures
        ls.len() >= 1 ==> join_with(ls, nl).len() >= ls[0].len(),
        ls.len() >= 2 ==> join_with(ls, nl).len() >= ls[0].len() + nl.len(),
    decreases ls.len(),
{
    if ls.len() >= 2 {
        lemma_join_len(ls.drop_last(), nl);
        assert(ls.drop_last()[0] == ls[0]);
    }
}

/// The region of lines `a..=b` lies within the text.
pub proof fn lemma_region(ls: Seq<LineV>, a: int, b: int)
    requires
        lines_wf(ls),
        0 <= a <= b < ls.len(),
    ensures
        line_start(ls, a) <= line_start(ls, b) <= line_start(ls, b + 1) <= text_of(ls).len(),
        line_start(ls, b) + ls[b].body.len() <= text_of(ls).len(),
        b + 1 == ls.len() ==> line_start(ls, b) + ls[b].body.len() == text_of(ls).len(),
{
    lemma_line_start_mono(ls, a, b);
    lemma_line_in_text(ls, b);
    if b + 1 == ls.len() {
        lemma_last_line_start(ls);
    }
}

/// Every body is no longer than the text.
pub proof fn lemma_body_len(ls: Seq<LineV>)
    requires
        lines_wf(ls),
    ensures
        forall|l: int| 0 <= l < ls.len() ==> (#[trigger] ls[l]).body.len() <= text_of(ls).len(),
{
    assert forall|l: int| 0 <= l < ls.len() implies (#[trigger] ls[l]).body.len() <= text_of(ls).len() by {
        lemma_region(ls, l, l);
    }
}

/// A block of lines with its region of the text.
#[derive(Debug)]
pub struct LineBlock {
    /// First line.
    pub a: usize,
    /// Last line (inclusive).
    pub b: usize,
    /// Offset of line `a`.
    pub start: usize,
    /// Offset after line `b`'s break (the text's end for the last line).
    pub end: usize,
    /// Whether the rebuilt text ends with a line break.
    pub push_nl: bool,
    /// The bodies the operation works on.
    pub lines: Vec<Vec<char>>,
}

impl EditorCore {
    /// The lines the cursor or selection touches; a selection that ends at
    /// a line's start does not touch that line.
    pub open spec fn touched(&self) -> (int, int) {
        match self.sel_ordered() {
            Some((s, e)) => (s.line as int, if e.col == 0 && e.line > s.line { e.line - 1 } else { e.line as int }),
            None => (self.cursor.line as int, self.cursor.line as int),
        }
    }

    /// The lines a line operation works on: the touched lines with a
    /// selection, the whole document without one.
    pub open spec fn scope(&self) -> (int, int) {
        if self.anchor is Some { self.touched() } else { (0, self.ls().len() - 1) }
    }

    /// Offset after line `b` and its break.
    pub open spec fn region_end(&self, b: int) -> int {
        if b + 1 < self.ls().len() { self.doc.lstart(b + 1) } else { self.doc.text().len() as int }
    }

    /// Line `b` is the empty line after a final line break, and the block
    /// has lines before it.
    pub open spec fn phantom(&self, a: int, b: int) -> bool {
        b == self.ls().len() - 1 && a < b && self.ls()[b].body.len() == 0
    }

    /// The region of lines `a..=b` ends with a line break.
    pub open spec fn tail_nl(&self, a: int, b: int) -> bool {
        b < self.ls().len() - 1 || self.phantom(a, b)
    }

    /// The last line whose body a block operation rewrites.
    pub open spec fn block_last(&self, a: int, b: int) -> int {
        if self.phantom(a, b) { b - 1 } else { b }
    }

    /// `blk` describes lines `blk.a..=blk.b` of the document.
    pub open spec fn block_ok(&self, blk: &LineBlock) -> bool {
        &&& blk.a <= blk.b < self.ls().len()
        &&& blk.start == self.doc.lstart(blk.a as int)
        &&& blk.end == self.region_end(blk.b as int)
    }

    /// Replacing the region of lines `a..=b` with `ls` rebuilt leaves a text
    /// that fits in memory.
    pub open spec fn rebuild_fits(&self, a: int, b: int, ls: Seq<Seq<char>>, tail: bool) -> bool {
        self.doc.text().len() - (self.region_end(b) - self.doc.lstart(a))
            + rebuild(ls, ending_chars(self.doc.ending), tail).len() < usize::MAX
    }

    /// The document after the region of lines `a..=b` is replaced by `ls`
    /// rebuilt.
    pub open spec fn text_with_block(&self, a: int, b: int, ls: Seq<Seq<char>>, tail: bool) -> Seq<char> {
        self.doc.text().take(self.doc.lstart(a)) + rebuild(ls, ending_chars(self.doc.ending), tail)
            + self.doc.text().skip(self.region_end(b))
    }

    /// The lines the cursor or selection touches (see [`Self::touched`]).
    pub fn touched_lines(&self) -> (r: (usize, usize))
        ensures
            (r.0 as int, r.1 as int) == self.touched(),
    {
        match self.ordered_selection() {
            Some((start, end)) => {
                let last = if end.col == 0 && end.line > start.line { end.line - 1 } else { end.line };
                (start.line, last)
            },
            None => (self.cursor.line, self.cursor.line),
        }
    }

    /// The touched lines lie in the document.
    pub proof fn lemma_touched(&self)
        requires
            self.wf(),
        ensures
            0 <= self.touched().0 <= self.touched().1 < self.ls().len(),
            0 <= self.scope().0 <= self.scope().1 < self.ls().len(),
    {
        reveal(lines_wf);
    }

    /// Offset after line `b` and its break.
    pub fn region_end_of(&self, b: usize) -> (r: usize)
        requires
            self.wf(),
            b < self.ls().len(),
        ensures
            r == self.region_end(b as int),
            self.doc.lstart(b as int) <= r <= self.doc.text().len(),
    {
        proof {
            lemma_region(self.ls(), b as int, b as int);
        }
        let n = self.doc.line_count();
        assert(n == self.ls().len());
        if b + 1 < n {
            self.doc.line_to_char(b + 1)
        } else {
            self.doc.text_len()
        }
    }
}

/// `p` kept inside lines `a..=b`, then inside the lines `ls` and within its
/// line's text.
pub open spec fn kept_cursor(p: CursorPos, a: int, b: int, ls: Seq<LineV>) -> CursorPos {
    let l0 = if p.line < a { a } else if p.line > b { b } else { p.line as int };
    let l = if l0 < ls.len() - 1 { l0 } else { ls.len() - 1 };
    let c = if p.col <= ls[l].body.len() { p.col as int } else { ls[l].body.len() as int };
    CursorPos { line: l as usize, col: c as usize }
}

impl EditorCore {
    /// The bodies of lines `a..=last`.
    pub fn bodies_of(&self, a: usize, last: usize) -> (r: Vec<Vec<char>>)
        requires
            a <= last + 1,
            last < self.ls().len(),
        ensures
            texts(r@) == bodies(self.ls(), a as int, last as int),
    {
        let mut out: Vec<Vec<char>> = Vec::new();
        let mut i = a;
        let n = self.doc.line_count();
        while i <= last
            invariant
                a <= i <= last + 1,
                last < self.ls().len(),
                last < n,
                texts(out@) == bodies(self.ls(), a as int, i - 1),
            decreases last + 1 - i,
        {
            let body = self.doc.body_chars(i);
            let ghost prev = out@;
            let ghost bv = body@;
            out.push(body);
            proof {
                assert(out@ == prev.push(body));
                assert(texts(out@) =~= texts(prev).push(bv));
                assert(texts(out@) =~= bodies(self.ls(), a as int, i as int));
            }
            i = i + 1;
        }
        out
    }

    /// The block a line operation works on: the lines of [`Self::scope`],
    /// the last one left out when it is the empty line after a final line
    /// break (and the block has others).
    pub fn collect_line_block(&self) -> (blk: LineBlock)
        requires
            self.wf(),
        ensures
            self.block_ok(&blk),
            (blk.a as int, blk.b as int) == self.scope(),
            blk.push_nl == self.tail_nl(blk.a as int, blk.b as int),
            texts(blk.lines@) == bodies(self.ls(), blk.a as int, self.block_last(blk.a as int, blk.b as int)),
            blk.start <= blk.end <= self.doc.text().len(),
    {
        proof {
            self.lemma_touched();
        }
        let count = self.doc.line_count();
        let (a, b) = if self.anchor.is_some() { self.touched_lines() } else { (0, count - 1) };
        self.line_block_at(a, b)
    }

    /// The block of lines `a..=b` (see [`Self::collect_line_block`]).
    pub fn line_block_at(&self, a: usize, b: usize) -> (blk: LineBlock)
        requires
            self.wf(),
            a <= b < self.ls().len(),
        ensures
            self.block_ok(&blk),
            blk.a == a && blk.b == b,
            blk.push_nl == self.tail_nl(a as int, b as int),
            texts(blk.lines@) == bodies(self.ls(), a as int, self.block_last(a as int, b as int)),
            blk.start <= blk.end <= self.doc.text().len(),
    {
        let count = self.doc.line_count();
        let start = self.doc.line_to_char(a);
        let end = self.region_end_of(b);
        proof {
            lemma_region(self.ls(), a as int, b as int);
        }
        let phantom = b + 1 == count && a < b && self.doc.body_len(b) == 0;
        let last = if phantom { b - 1 } else { b };
        let lines = self.bodies_of(a, last);
        LineBlock { a, b, start, end, push_nl: b + 1 < count || phantom, lines }
    }

    /// Writes `lines` back over the block's region, joined by the dominant
    /// ending (and followed by one when `blk.push_nl`), in one undo entry.
    /// Bookmarks follow `map` (line `a + i` goes to `a + map[i]`, `None`
    /// drops it); the selection is dropped and the cursor kept inside the
    /// block and the new line count.
    pub fn apply_line_block(&mut self, blk: &LineBlock, lines: &Vec<Vec<char>>, map: &Vec<Option<usize>>)
        requires
            old(self).wf(),
            old(self).block_ok(blk),
            old(self).rebuild_fits(blk.a as int, blk.b as int, texts(lines@), blk.push_nl),
        ensures
            final(self).wf(),
            final(self).doc.text() == old(self).text_with_block(blk.a as int, blk.b as int, texts(lines@), blk.push_nl),
            final(self).doc.ending == old(self).doc.ending,
            final(self).undo_view() == push_capped(old(self).undo_view(), old(self).snap()),
            final(self).redo_view() == Seq::<SnapV>::empty(),
            final(self).typing_run is None,
            final(self).bookmarks.set() == image(old(self).bookmarks.set(), block_map(blk.a as int, map@)),
            final(self).anchor is None,
            final(self).cursor == kept_cursor(old(self).cursor, blk.a as int, blk.b as int, final(self).ls()),
            final(self).max_cols_stale,
            final(self).block_sel == old(self).block_sel,
            final(self).saved_baseline == old(self).saved_baseline,
            final(self).overwrite == old(self).overwrite,
            final(self).focused == old(self).focused,
            final(self).syntax_name == old(self).syntax_name,
            edit_frame(old(self), final(self)),
            final(self).extra_cursors == old(self).extra_cursors,
    {
        proof {
            lemma_region(self.ls(), blk.a as int, blk.b as int);
        }
        let keep_line = if self.cursor.line < blk.a {
            blk.a
        } else if self.cursor.line > blk.b {
            blk.b
        } else {
            self.cursor.line
        };
        let keep_col = self.cursor.col;
        let ghost old_cursor = self.cursor;
        let nl = newline_chars(self.doc.ending);
        let rebuilt = join_lines(lines, &nl, blk.push_nl);
        let marks = remap_block_mapping(&self.bookmarks, blk.a, map);
        self.snapshot();
        self.bookmarks = marks;
        self.doc.replace_range(blk.start, blk.end, rebuilt.as_slice());
        self.anchor = None;
        proof {
            reveal(lines_wf);
        }
        let n = self.doc.line_count();
        let kl = if keep_line < n - 1 { keep_line } else { n - 1 };
        let bl = self.doc.body_len(kl);
        self.cursor = CursorPos { line: kl, col: if keep_col <= bl { keep_col } else { bl } };
        assert(self.cursor == kept_cursor(old_cursor, blk.a as int, blk.b as int, self.ls()));
    }
}

} // verus!
