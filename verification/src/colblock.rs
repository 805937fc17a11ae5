//! Column (rectangular) block selection: its lifecycle, copying its text,
//! deleting it and filling it with text.

use vstd::prelude::*;
use crate::document::{LineV, lines_wf, eol_chars, ending_chars, Eol, pos_of_offset, push_eol, append_chars,
    newline_chars, is_break_char, line_text, lemma_line_in_text, lemma_line_start_mono};
use crate::editor::{EditorCore, CursorPos, BlockSel, block_rect, block_is_empty, push_capped, SnapV};
use crate::lineblock::{texts, join_with, join_lines, lemma_region};
use crate::lineset::{image, LineSet};
use crate::marks::{shift_clamp_map, shift_bookmarks_below};
use crate::tabs::sub_chars;

verus! {

/// The part of `body` in columns `[c0, c1)`, cut at the body's end.
pub open spec fn col_seg(body: Seq<char>, c0: int, c1: int) -> Seq<char> {
    let a = if c0 <= body.len() { c0 } else { body.len() as int };
    let b = if c1 <= body.len() { c1 } else { body.len() as int };
    body.subrange(a, b)
}

/// The segments of rows `r0..=r1` in columns `[c0, c1)`.
pub open spec fn block_segs(ls: Seq<LineV>, r0: int, r1: int, c0: int, c1: int) -> Seq<Seq<char>> {
    Seq::new((r1 + 1 - r0) as nat, |i: int| col_seg(ls[r0 + i].body, c0, c1))
}

/// The text of rows `r0..r0 + nbs.len()` with their bodies replaced by
/// `nbs`, breaks kept.
pub open spec fn rows_text(ls: Seq<LineV>, r0: int, nbs: Seq<Seq<char>>) -> Seq<char>
    decreases nbs.len(),
{
    if nbs.len() == 0 {
        seq![]
    } else {
        rows_text(ls, r0, nbs.drop_last()) + nbs.last() + eol_chars(ls[r0 + nbs.len() - 1].eol)
    }
}

/// Rows whose bodies do not grow take no more room than they did.
pub proof fn lemma_rows_len(ls: Seq<LineV>, r0: int, nbs: Seq<Seq<char>>)
    requires
        0 <= r0,
        r0 + nbs.len() <= ls.len(),
        forall|i: int| 0 <= i < nbs.len() ==> (#[trigger] nbs[i]).len() <= ls[r0 + i].body.len(),
    ensures
        rows_text(ls, r0, nbs).len() <= crate::document::line_start(ls, r0 + nbs.len()) - crate::document::line_start(ls, r0),
    decreases nbs.len(),
{
    if nbs.len() > 0 {
        let d = nbs.drop_last();
        assert forall|i: int| 0 <= i < d.len() implies (#[trigger] d[i]).len() <= ls[r0 + i].body.len() by {
            assert(d[i] == nbs[i]);
        }
        lemma_rows_len(ls, r0, d);
        lemma_line_in_text(ls, r0 + nbs.len() - 1);
        assert(nbs.last() == nbs[nbs.len() - 1]);
    }
}

/// The rows' text holds the first row's body.
pub proof fn lemma_rows_first(ls: Seq<LineV>, r0: int, nbs: Seq<Seq<char>>)
    requires
        nbs.len() >= 1,
    ensures
        rows_text(ls, r0, nbs).len() >= nbs[0].len(),
    decreases nbs.len(),
{
    if nbs.len() > 1 {
        lemma_rows_first(ls, r0, nbs.drop_last());
        assert(nbs.drop_last()[0] == nbs[0]);
    }
}

/// The region of lines `a..=b` ends where line `b + 1` starts (the text's
/// end for the last line).
pub proof fn lemma_region_end(ls: Seq<LineV>, b: int)
    requires
        lines_wf(ls),
        0 <= b < ls.len(),
    ensures
        crate::document::line_start(ls, b + 1) == if b + 1 < ls.len() { crate::document::line_start(ls, b + 1) }
            else { crate::document::text_of(ls).len() as int },
{
    if b + 1 == ls.len() {
        assert(ls.take(ls.len() as int) =~= ls);
    }
}

/// A text cut at its line breaks (`\r\n`, a lone `\r`, a lone `\n`).
pub open spec fn split_breaks(s: Seq<char>) -> Seq<Seq<char>>
    decreases s.len(),
{
    if s.len() == 0 {
        seq![seq![]]
    } else if s.last() == '\n' && s.len() >= 2 && s[s.len() - 2] == '\r' {
        split_breaks(s.drop_last())
    } else if is_break_char(s.last()) {
        split_breaks(s.drop_last()).push(seq![])
    } else {
        let p = split_breaks(s.drop_last());
        p.update(p.len() - 1, p.last().push(s.last()))
    }
}

/// A text cut into at least one piece.
pub proof fn lemma_split_breaks_len(s: Seq<char>)
    ensures
        split_breaks(s).len() >= 1,
        split_breaks(s).len() <= s.len() + 1,
    decreases s.len(),
{
    if s.len() > 0 {
        lemma_split_breaks_len(s.drop_last());
    }
}

/// The lines of a text to fill a block with: its pieces, a final empty
/// piece (after a final line break) left out.
pub open spec fn fill_lines(s: Seq<char>) -> Seq<Seq<char>> {
    let p = split_breaks(s);
    if p.last().len() == 0 { p.drop_last() } else { p }
}

/// Cuts a text at its line breaks.
pub fn split_at_breaks(s: &[char]) -> (r: Vec<Vec<char>>)
    ensures
        texts(r@) == split_breaks(s@),
{
    let mut out: Vec<Vec<char>> = Vec::new();
    out.push(Vec::new());
    let mut i: usize = 0;
    proof {
        assert(s@.take(0) =~= Seq::<char>::empty());
        assert(texts(out@) =~= split_breaks(s@.take(0)));
    }
    while i < s.len()
        invariant
            i <= s@.len(),
            out@.len() >= 1,
            texts(out@) == split_breaks(s@.take(i as int)),
        decreases s@.len() - i,
    {
        let c = s[i];
        let ghost t = s@.take(i + 1);
        proof {
            assert(t.drop_last() =~= s@.take(i as int));
            assert(t.last() == c);
            if i >= 1 {
                assert(t[t.len() - 2] == s@[i - 1]);
            }
        }
        let ghost po = texts(out@);
        if c == '\n' && i > 0 && s[i - 1] == '\r' {
        } else if c == '\n' || c == '\r' {
            out.push(Vec::new());
            proof {
                assert(texts(out@) =~= po.push(seq![]));
            }
        } else {
            let mut last = out.pop().unwrap();
            last.push(c);
            out.push(last);
            proof {
                assert(texts(out@) =~= po.update(po.len() - 1, po.last().push(c)));
            }
        }
        i = i + 1;
    }
    proof {
        assert(s@.take(i as int) =~= s@);
    }
    out
}

/// A body with columns `[c0, c1)` cut out.
pub open spec fn cut_cols(body: Seq<char>, c0: int, c1: int) -> Seq<char> {
    let a = if c0 <= body.len() { c0 } else { body.len() as int };
    let b = if c1 <= body.len() { c1 } else { body.len() as int };
    body.take(a) + body.skip(b)
}

/// A body with columns `[c0, c1)` replaced by `fill`.
pub open spec fn fill_cols(body: Seq<char>, c0: int, c1: int, fill: Seq<char>) -> Seq<char> {
    let a = if c0 <= body.len() { c0 } else { body.len() as int };
    let b = if c1 <= body.len() { c1 } else { body.len() as int };
    body.take(a) + fill + body.skip(b)
}

impl EditorCore {
    /// The block's rectangle when there is a non-empty block.
    pub open spec fn active_rect(&self) -> Option<(int, int, int, int)> {
        match self.block_sel {
            Some(b) => if block_is_empty(b) { None } else { Some(block_rect(b)) },
            None => None,
        }
    }

    /// The block's rows are lines of the document.
    pub open spec fn block_in_doc(&self) -> bool {
        self.block_sel matches Some(b) ==> b.anchor.line < self.ls().len() && b.head.line < self.ls().len()
    }

    /// Whether there is a non-empty block.
    pub fn has_block(&self) -> (r: bool)
        ensures
            r == (self.active_rect() is Some),
    {
        match self.block_sel {
            Some(b) => !b.is_empty(),
            None => false,
        }
    }

    /// Clears the block (and ends a block drag); returns whether there was
    /// one.
    pub fn clear_block(&mut self) -> (r: bool)
        ensures
            r == (old(self).block_sel is Some),
            *final(self) == (EditorCore { block_sel: None, block_dragging: false, ..*old(self) }),
    {
        self.block_dragging = false;
        let had = self.block_sel.is_some();
        self.block_sel = None;
        had
    }

    /// Starts a block drag at `at` (refused while soft wrap is on): the
    /// block is the single point `at`, the selection is dropped and the
    /// typing run ends.
    pub fn begin_block_select(&mut self, at: CursorPos)
        ensures
            old(self).wrap_enabled ==> *final(self) == *old(self),
            !old(self).wrap_enabled ==> *final(self) == (EditorCore {
                block_dragging: true, block_sel: Some(BlockSel { anchor: at, head: at }), anchor: None,
                typing_run: None, ..*old(self) }),
    {
        if self.wrap_enabled {
            return;
        }
        self.block_dragging = true;
        self.block_sel = Some(BlockSel { anchor: at, head: at });
        self.anchor = None;
        self.typing_run = None;
    }

    /// Moves the block's opposite corner to `to` while dragging.
    pub fn update_block_select(&mut self, to: CursorPos)
        ensures
            *final(self) == (EditorCore { block_sel: match old(self).block_sel {
                Some(b) => Some(BlockSel { head: to, ..b }), None => None }, ..*old(self) }),
    {
        if let Some(b) = self.block_sel {
            self.block_sel = Some(BlockSel { anchor: b.anchor, head: to });
        }
    }

    /// Ends a block drag; an empty block is cleared. Returns whether a
    /// non-empty block remains.
    pub fn finish_block_select(&mut self) -> (r: bool)
        ensures
            r == (old(self).active_rect() is Some),
            *final(self) == (EditorCore { block_dragging: false,
                block_sel: if r { old(self).block_sel } else { None }, ..*old(self) }),
    {
        self.block_dragging = false;
        match self.block_sel {
            Some(b) => {
                if !b.is_empty() {
                    return true;
                }
                self.block_sel = None;
                false
            },
            None => false,
        }
    }

    /// The block's rectangle `(r0, r1, c0, c1)` when there is a non-empty
    /// block.
    pub fn active_block(&self) -> (r: Option<(usize, usize, usize, usize)>)
        ensures
            match r {
                Some(t) => self.active_rect() == Some((t.0 as int, t.1 as int, t.2 as int, t.3 as int)),
                None => self.active_rect() is None,
            },
    {
        match self.block_sel {
            Some(b) => {
                if b.is_empty() {
                    None
                } else {
                    Some(b.normalized())
                }
            },
            None => None,
        }
    }

    /// The block's text: each row's part in the block's columns (short
    /// rows give what they have), joined by `\n`; none without a block.
    pub fn block_copy_text(&self) -> (r: Option<String>)
        requires
            self.wf(),
            self.block_in_doc(),
        ensures
            match self.active_rect() {
                Some((r0, r1, c0, c1)) => r matches Some(s) && s@ == join_with(block_segs(self.ls(), r0, r1, c0, c1), seq!['\n']),
                None => r is None,
            },
    {
        let (r0, r1, c0, c1) = match self.active_block() {
            Some(t) => t,
            None => return None,
        };
        let mut parts: Vec<Vec<char>> = Vec::new();
        let mut line = r0;
        let ghost ls = self.ls();
        let count = self.doc.line_count();
        proof {
            assert(texts(parts@) =~= block_segs(ls, r0 as int, r0 - 1, c0 as int, c1 as int));
        }
        while line <= r1
            invariant
                r0 <= line <= r1 + 1,
                r1 < ls.len(),
                r1 < count,
                c0 <= c1,
                ls == self.ls(),
                texts(parts@) == block_segs(ls, r0 as int, line - 1, c0 as int, c1 as int),
            decreases r1 + 1 - line,
        {
            let body = self.doc.body_chars(line);
            let n = body.len();
            let a = if c0 <= n { c0 } else { n };
            let b = if c1 <= n { c1 } else { n };
            let seg = if b > a { sub_chars(body.as_slice(), a, b) } else { Vec::new() };
            let ghost pp = texts(parts@);
            let ghost sv = seg@;
            parts.push(seg);
            proof {
                assert(sv =~= col_seg(ls[line as int].body, c0 as int, c1 as int));
                assert(texts(parts@) =~= pp.push(sv));
                assert(texts(parts@) =~= block_segs(ls, r0 as int, line as int, c0 as int, c1 as int));
            }
            line = line + 1;
        }
        let mut sep: Vec<char> = Vec::new();
        sep.push('\n');
        let joined = join_lines(&parts, &sep, false);
        proof {
            assert(sep@ =~= seq!['\n']);
        }
        Some(crate::strs::string_of(joined.as_slice()))
    }
}

/// Builds rows `r0..` with their bodies replaced by `nbs`, breaks kept.
fn rows_chars(ed: &EditorCore, r0: usize, nbs: &Vec<Vec<char>>) -> (r: Vec<char>)
    requires
        ed.wf(),
        r0 + nbs@.len() <= ed.ls().len(),
    ensures
        r@ == rows_text(ed.ls(), r0 as int, texts(nbs@)),
{
    let mut out: Vec<char> = Vec::new();
    let mut i: usize = 0;
    let count = ed.doc.line_count();
    proof {
        assert(texts(nbs@).take(0) =~= Seq::<Seq<char>>::empty());
    }
    while i < nbs.len()
        invariant
            i <= nbs@.len(),
            r0 + nbs@.len() <= count == ed.ls().len(),
            out@ == rows_text(ed.ls(), r0 as int, texts(nbs@).take(i as int)),
        decreases nbs@.len() - i,
    {
        append_chars(&mut out, nbs[i].as_slice());
        push_eol(&mut out, ed.doc.eol_of(r0 + i));
        proof {
            let t = texts(nbs@).take(i + 1);
            assert(t.drop_last() =~= texts(nbs@).take(i as int));
            assert(t.last() == nbs@[i as int]@);
        }
        i = i + 1;
    }
    proof {
        assert(texts(nbs@).take(i as int) =~= texts(nbs@));
    }
    out
}

impl EditorCore {
    /// The bodies of rows `r0..=r1` with columns `[c0, c1)` cut out.
    pub open spec fn cut_bodies(&self, r0: int, r1: int, c0: int, c1: int) -> Seq<Seq<char>> {
        Seq::new((r1 + 1 - r0) as nat, |i: int| cut_cols(self.ls()[r0 + i].body, c0, c1))
    }

    /// Deletes the block's columns from each of its rows (short rows lose
    /// what they have there), as one undo entry; the block and the
    /// selection are cleared, the cursor goes to the block's top-left
    /// corner (within its row). Returns whether anything was deleted; an
    /// empty rectangle leaves everything as it was.
    pub fn delete_block_content(&mut self) -> (r: bool)
        requires
            old(self).wf(),
            old(self).block_in_doc(),
        ensures
            match old(self).active_rect() {
                Some((r0, r1, c0, c1)) => {
                    &&& r == exists|i: int| 0 <= i <= r1 - r0 && #[trigger] col_seg(old(self).ls()[r0 + i].body, c0, c1).len() > 0
                    &&& r ==> {
                        &&& final(self).wf()
                        &&& final(self).doc.text() == old(self).doc.text().take(old(self).doc.lstart(r0))
                            + rows_text(old(self).ls(), r0, old(self).cut_bodies(r0, r1, c0, c1))
                            + old(self).doc.text().skip(old(self).region_end(r1))
                        &&& final(self).doc.ending == old(self).doc.ending
                        &&& final(self).undo_view() == push_capped(old(self).undo_view(), old(self).snap())
                        &&& final(self).redo_view() == Seq::<SnapV>::empty()
                        &&& final(self).typing_run is None
                        &&& final(self).block_sel is None
                        &&& final(self).anchor is None
                        &&& final(self).bookmarks == old(self).bookmarks
                        &&& (final(self).cursor.line as int, final(self).cursor.col as int) == pos_of_offset(final(self).ls(),
                            old(self).doc.lstart(r0) + if c0 <= old(self).ls()[r0].body.len() { c0 } else { old(self).ls()[r0].body.len() as int })
                    }
                },
                None => !r,
            },
            !r ==> *final(self) == *old(self),
    {
        let (r0, r1, c0, c1) = match self.active_block() {
            Some(t) => t,
            None => return false,
        };
        let ghost ls = self.ls();
        let count = self.doc.line_count();
        let mut nbs: Vec<Vec<char>> = Vec::new();
        let mut any = false;
        let mut line = r0;
        while line <= r1
            invariant
                r0 <= line <= r1 + 1,
                r1 < count == ls.len(),
                c0 <= c1,
                ls == self.ls(),
                texts(nbs@) == Seq::new((line - r0) as nat, |i: int| cut_cols(ls[r0 + i].body, c0 as int, c1 as int)),
                any == exists|i: int| 0 <= i < line - r0 && #[trigger] col_seg(ls[r0 + i].body, c0 as int, c1 as int).len() > 0,
            decreases r1 + 1 - line,
        {
            let body = self.doc.body_chars(line);
            let n = body.len();
            let a = if c0 <= n { c0 } else { n };
            let b = if c1 <= n { c1 } else { n };
            let mut nb = sub_chars(body.as_slice(), 0, a);
            let tail = sub_chars(body.as_slice(), b, n);
            append_chars(&mut nb, tail.as_slice());
            let ghost pn = texts(nbs@);
            let ghost nv = nb@;
            nbs.push(nb);
            proof {
                assert(nv =~= cut_cols(ls[line as int].body, c0 as int, c1 as int));
                assert(texts(nbs@) =~= pn.push(nv));
                assert(texts(nbs@) =~= Seq::new((line + 1 - r0) as nat, |i: int| cut_cols(ls[r0 + i].body, c0 as int, c1 as int)));
                assert(col_seg(ls[r0 + (line - r0)].body, c0 as int, c1 as int).len() == b - a);
            }
            any = any || b > a;
            line = line + 1;
        }
        if !any {
            return false;
        }
        proof {
            lemma_region(ls, r0 as int, r1 as int);
            lemma_region(ls, r0 as int, r0 as int);
            assert(texts(nbs@) =~= self.cut_bodies(r0 as int, r1 as int, c0 as int, c1 as int));
        }
        let region = rows_chars(self, r0, &nbs);
        let start = self.doc.line_to_char(r0);
        let end = self.region_end_of(r1);
        let b0 = self.doc.body_len(r0);
        let at = start + if c0 <= b0 { c0 } else { b0 };
        proof {
            lemma_rows_len(ls, r0 as int, texts(nbs@));
            lemma_region_end(ls, r1 as int);
        }
        self.snapshot();
        self.doc.replace_range(start, end, region.as_slice());
        self.block_dragging = false;
        self.block_sel = None;
        self.anchor = None;
        let (l, c) = self.doc.char_to_pos(at);
        self.cursor = CursorPos { line: l, col: c };
        true
    }
}

impl EditorCore {
    /// The bodies of rows `r0..=r1` with columns `[c0, c1)` replaced by the
    /// fill lines, taken in turn and cycled.
    pub open spec fn filled_bodies(&self, r0: int, r1: int, c0: int, c1: int, fills: Seq<Seq<char>>) -> Seq<Seq<char>> {
        Seq::new((r1 + 1 - r0) as nat, |i: int| fill_cols(self.ls()[r0 + i].body, c0, c1, fills[i % (fills.len() as int)]))
    }

    /// The lines added below the block when there are more fill lines than
    /// rows (after a line break when the last row has none).
    pub open spec fn block_extra(&self, r1: int, rows: int, fills: Seq<Seq<char>>) -> Seq<char> {
        let nl = ending_chars(self.doc.ending);
        if fills.len() > rows {
            (if self.ls()[r1].eol == Eol::NoBreak { nl } else { seq![] }) + join_with(fills.skip(rows), nl) + nl
        } else {
            seq![]
        }
    }

    /// The text after filling the block `(r0, r1, c0, c1)` with `fills`.
    pub open spec fn block_filled_text(&self, r0: int, r1: int, c0: int, c1: int, fills: Seq<Seq<char>>) -> Seq<char> {
        self.doc.text().take(self.doc.lstart(r0)) + rows_text(self.ls(), r0, self.filled_bodies(r0, r1, c0, c1, fills))
            + self.block_extra(r1, r1 + 1 - r0, fills) + self.doc.text().skip(self.region_end(r1))
    }

    /// Rows `r0..=r1` with columns `[c0, c1)` replaced by the fill lines
    /// (see [`Self::filled_bodies`]).
    fn filled_rows(&self, r0: usize, r1: usize, c0: usize, c1: usize, fills: &Vec<Vec<char>>) -> (r: Vec<Vec<char>>)
        requires
            self.wf(),
            r0 <= r1 < self.ls().len(),
            c0 <= c1,
            fills@.len() > 0,
        ensures
            texts(r@) == self.filled_bodies(r0 as int, r1 as int, c0 as int, c1 as int, texts(fills@)),
    {
        let ghost ls = self.ls();
        let ghost fl = texts(fills@);
        let k = fills.len();
        let count = self.doc.line_count();
        let mut nbs: Vec<Vec<char>> = Vec::new();
        let mut line = r0;
        while line <= r1
            invariant
                r0 <= line <= r1 + 1,
                r1 < count == ls.len(),
                c0 <= c1,
                ls == self.ls(),
                k == fills@.len() > 0,
                fl == texts(fills@),
                texts(nbs@) == Seq::new((line - r0) as nat,
                    |i: int| fill_cols(ls[r0 + i].body, c0 as int, c1 as int, fl[i % (k as int)])),
            decreases r1 + 1 - line,
        {
            let body = self.doc.body_chars(line);
            let n = body.len();
            let a = if c0 <= n { c0 } else { n };
            let b = if c1 <= n { c1 } else { n };
            let idx = (line - r0) % k;
            let mut nb = sub_chars(body.as_slice(), 0, a);
            append_chars(&mut nb, fills[idx].as_slice());
            let tail = sub_chars(body.as_slice(), b, n);
            append_chars(&mut nb, tail.as_slice());
            let ghost pn = texts(nbs@);
            let ghost nv = nb@;
            nbs.push(nb);
            proof {
                assert(fl[idx as int] == fills@[idx as int]@);
                assert(nv =~= fill_cols(ls[line as int].body, c0 as int, c1 as int, fl[(line - r0) % (k as int)]));
                assert(texts(nbs@) =~= pn.push(nv));
                assert(texts(nbs@) =~= Seq::new((line + 1 - r0) as nat,
                    |i: int| fill_cols(ls[r0 + i].body, c0 as int, c1 as int, fl[i % (k as int)])));
            }
            line = line + 1;
        }
        proof {
            assert(texts(nbs@) =~= self.filled_bodies(r0 as int, r1 as int, c0 as int, c1 as int, fl));
        }
        nbs
    }

    /// The lines added below the block (see [`Self::block_extra`]).
    fn extra_chars(&self, r1: usize, rows: usize, fills: &Vec<Vec<char>>) -> (r: Vec<char>)
        requires
            self.wf(),
            r1 < self.ls().len(),
        ensures
            r@ == self.block_extra(r1 as int, rows as int, texts(fills@)),
    {
        let ghost fl = texts(fills@);
        let k = fills.len();
        let nl = newline_chars(self.doc.ending);
        let mut out: Vec<char> = Vec::new();
        if k <= rows {
            return out;
        }
        if self.doc.eol_of(r1) == Eol::NoBreak {
            append_chars(&mut out, nl.as_slice());
        }
        let ghost o0 = out@;
        let mut extra: Vec<Vec<char>> = Vec::new();
        let mut e = rows;
        while e < k
            invariant
                rows <= e <= k == fills@.len(),
                fl == texts(fills@),
                texts(extra@) == fl.subrange(rows as int, e as int),
            decreases k - e,
        {
            let c = crate::strs::copy_chars(fills[e].as_slice());
            let ghost pe = texts(extra@);
            extra.push(c);
            proof {
                assert(texts(extra@) =~= pe.push(fl[e as int]));
                assert(fl.subrange(rows as int, e + 1) =~= fl.subrange(rows as int, e as int).push(fl[e as int]));
            }
            e = e + 1;
        }
        proof {
            assert(fl.subrange(rows as int, k as int) =~= fl.skip(rows as int));
        }
        let joined = join_lines(&extra, &nl, true);
        append_chars(&mut out, joined.as_slice());
        out
    }

    /// Fills the block with `text`: its lines (cut at line breaks, a final
    /// empty one left out) replace the block's columns row by row, cycling
    /// when there are fewer lines than rows; lines beyond the rows are added
    /// below the block, moving the bookmarks below it down. One undo entry;
    /// the block and the selection are cleared and the cursor goes after
    /// the first row's fill. Returns whether anything was inserted: no
    /// block, a text of empty lines only, or a result that does not fit
    /// leaves everything as it was.
    #[verifier::rlimit(40)]
    pub fn insert_into_block(&mut self, text: &str) -> (r: bool)
        requires
            old(self).wf(),
            old(self).block_in_doc(),
            text@.len() < isize::MAX,
        ensures
            match old(self).active_rect() {
                Some((r0, r1, c0, c1)) => {
                    let fills = fill_lines(text@);
                    let rows = r1 + 1 - r0;
                    let t = old(self).block_filled_text(r0, r1, c0, c1, fills);
                    &&& r == (fills.len() > 0 && (exists|i: int| 0 <= i < fills.len() && #[trigger] fills[i].len() > 0)
                        && t.len() < usize::MAX)
                    &&& r ==> {
                        &&& final(self).wf()
                        &&& final(self).doc.text() == t
                        &&& final(self).doc.ending == old(self).doc.ending
                        &&& final(self).undo_view() == push_capped(old(self).undo_view(), old(self).snap())
                        &&& final(self).redo_view() == Seq::<SnapV>::empty()
                        &&& final(self).typing_run is None
                        &&& final(self).block_sel is None
                        &&& final(self).anchor is None
                        &&& final(self).bookmarks.set() == if fills.len() > rows {
                            image(old(self).bookmarks.set(), shift_clamp_map(r1, fills.len() - rows)) } else { old(self).bookmarks.set() }
                        &&& (final(self).cursor.line as int, final(self).cursor.col as int) == pos_of_offset(final(self).ls(), {
                            let nb = fill_cols(old(self).ls()[r0].body, c0, c1, fills[0]);
                            old(self).doc.lstart(r0) + if c0 + fills[0].len() <= nb.len() { c0 + fills[0].len() } else { nb.len() as int } })
                    }
                },
                None => !r,
            },
            !r ==> *final(self) == *old(self),
    {
        let (r0, r1, c0, c1) = match self.active_block() {
            Some(t) => t,
            None => return false,
        };
        let raw = crate::strs::chars_of(text);
        let mut fills = split_at_breaks(raw.as_slice());
        proof {
            lemma_split_breaks_len(raw@);
        }
        if fills[fills.len() - 1].len() == 0 {
            fills.pop();
        }
        let ghost fl = texts(fills@);
        assert(fl == fill_lines(text@));
        let k = fills.len();
        if k == 0 {
            return false;
        }
        let mut any = false;
        let mut j: usize = 0;
        while j < k
            invariant
                j <= k == fills@.len(),
                fl == texts(fills@),
                any == exists|i: int| 0 <= i < j && #[trigger] fl[i].len() > 0,
            decreases k - j,
        {
            assert(fl[j as int] == fills@[j as int]@);
            any = any || fills[j].len() > 0;
            j = j + 1;
        }
        if !any {
            return false;
        }
        let ghost ls = self.ls();
        proof {
            lemma_region(ls, r0 as int, r1 as int);
        }
        let nbs = self.filled_rows(r0, r1, c0, c1, &fills);
        assert(texts(nbs@).len() == nbs@.len());
        let count = self.doc.line_count();
        assert(r0 + nbs@.len() <= count);
        let mut region = rows_chars(self, r0, &nbs);
        proof {
            lemma_rows_first(ls, r0 as int, texts(nbs@));
        }
        let rows = r1 - r0 + 1;
        let extra = self.extra_chars(r1, rows, &fills);
        append_chars(&mut region, extra.as_slice());
        let start = self.doc.line_to_char(r0);
        let end = self.region_end_of(r1);
        let len = self.doc.text_len();
        if region.len() >= usize::MAX - (len - (end - start)) {
            return false;
        }
        let marks = if k > rows {
            shift_bookmarks_below(&self.bookmarks, r1, (k - rows) as isize)
        } else {
            LineSet { items: self.bookmarks.to_vec() }
        };
        let newlen = nbs[0].len();
        let f0 = fills[0].len();
        let col = if c0 <= newlen && f0 <= newlen - c0 { c0 + f0 } else { newlen };
        proof {
            assert(fl[0] == fills@[0]@);
            assert(texts(nbs@)[0] == nbs@[0]@);
            assert(0int % (k as int) == 0);
            crate::document::lemma_text_of_len_lines(ls);
        }
        self.snapshot();
        self.bookmarks = marks;
        self.doc.replace_range(start, end, region.as_slice());
        self.block_dragging = false;
        self.block_sel = None;
        self.anchor = None;
        let (l, c) = self.doc.char_to_pos(start + col);
        self.cursor = CursorPos { line: l, col: c };
        true
    }
}

} // verus!
