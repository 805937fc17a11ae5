//! Merging touched lines into one, and splitting a line at the cursor or
//! around the selection.

use vstd::prelude::*;
use crate::editor::{EditorCore, CursorPos, pos_in};
use crate::lineblock::{texts, bodies, LineBlock, lemma_region, same_lines};
use crate::tabs::sub_chars;
use crate::lineset::image;
use crate::marks::{block_map, shift_clamp_map, shift_bookmarks_below};
use crate::tabs::{trim, trim_chars};
use crate::document::{lines_wf, lemma_text_of_len_lines, append_chars};

verus! {

/// The parts trimmed and joined by single spaces; parts that trim to
/// nothing are left out.
pub open spec fn merge_join(parts: Seq<Seq<char>>) -> Seq<char>
    decreases parts.len(),
{
    if parts.len() == 0 {
        seq![]
    } else {
        let acc = merge_join(parts.drop_last());
        let t = trim(parts.last());
        if t.len() == 0 { acc } else if acc.len() == 0 { t } else { acc + seq![' '] + t }
    }
}

/// A map for merging `n` lines into the first.
pub open spec fn merge_map(n: nat) -> Seq<Option<usize>> {
    Seq::new(n, |i: int| if i == 0 { Some(0usize) } else { None })
}

/// Trims the parts and joins the non-empty ones with single spaces.
pub fn merge_parts(parts: &Vec<Vec<char>>) -> (r: Vec<char>)
    ensures
        r@ == merge_join(texts(parts@)),
{
    let ghost src = texts(parts@);
    let mut out: Vec<char> = Vec::new();
    let mut i: usize = 0;
    proof {
        assert(src.take(0) =~= Seq::<Seq<char>>::empty());
    }
    while i < parts.len()
        invariant
            i <= parts@.len(),
            src == texts(parts@),
            out@ == merge_join(src.take(i as int)),
        decreases parts@.len() - i,
    {
        let t = trim_chars(parts[i].as_slice(), true, true);
        proof {
            assert(src.take(i + 1).drop_last() =~= src.take(i as int));
            assert(src.take(i + 1).last() == parts@[i as int]@);
        }
        if t.len() > 0 {
            if out.len() > 0 {
                out.push(' ');
            }
            append_chars(&mut out, t.as_slice());
        }
        i = i + 1;
    }
    proof {
        assert(src.take(i as int) =~= src);
    }
    out
}

/// A map: the first line stays, the others are dropped.
fn first_only_map(n: usize) -> (map: Vec<Option<usize>>)
    ensures
        map@ == merge_map(n as nat),
{
    let mut map: Vec<Option<usize>> = Vec::new();
    let mut k: usize = 0;
    while k < n
        invariant
            k <= n,
            map@ == merge_map(n as nat).take(k as int),
        decreases n - k,
    {
        if k == 0 {
            map.push(Some(0));
        } else {
            map.push(None);
        }
        k = k + 1;
        proof {
            assert(map@ =~= merge_map(n as nat).take(k as int));
        }
    }
    proof {
        assert(map@ =~= merge_map(n as nat));
    }
    map
}

impl EditorCore {
    /// The lines a merge joins: the touched lines with a selection, else
    /// the cursor's line and the next (none on the last line).
    pub open spec fn merge_range(&self) -> Option<(int, int)> {
        if self.anchor is Some {
            Some(self.touched())
        } else if self.cursor.line + 1 < self.ls().len() {
            Some((self.cursor.line as int, self.cursor.line + 1))
        } else {
            None
        }
    }

    /// Whether a merge has at least two lines to join.
    pub open spec fn merge_applies(&self) -> bool {
        self.merge_range() matches Some((a, b)) && self.block_last(a, b) > a
    }

    /// The merged line.
    pub open spec fn merged(&self) -> Seq<char> {
        let (a, b) = self.merge_range().unwrap();
        merge_join(bodies(self.ls(), a, self.block_last(a, b)))
    }

    /// Merges the touched lines (without a selection, the cursor's line and
    /// the next) into one: each trimmed, joined by single spaces, blank
    /// ones left out; the empty line after a final line break takes no
    /// part. Bookmarks on the first line stay, those on the others are
    /// dropped, those below move up. Returns whether anything changed;
    /// fewer than two lines leave everything as it was.
    #[verifier::rlimit(40)]
    pub fn merge_lines(&mut self) -> (r: bool)
        requires
            old(self).wf(),
            old(self).doc.text().len() < isize::MAX,
            old(self).merge_applies() ==> old(self).rebuild_fits(old(self).merge_range().unwrap().0,
                old(self).merge_range().unwrap().1, seq![old(self).merged()],
                old(self).tail_nl(old(self).merge_range().unwrap().0, old(self).merge_range().unwrap().1)),
        ensures
            r == old(self).merge_applies(),
            r ==> old(self).block_rewritten(final(self), old(self).merge_range().unwrap().0,
                old(self).merge_range().unwrap().1, seq![old(self).merged()],
                old(self).tail_nl(old(self).merge_range().unwrap().0, old(self).merge_range().unwrap().1)),
            r ==> ({
                let (a, b) = old(self).merge_range().unwrap();
                let n = old(self).block_last(a, b) - a + 1;
                final(self).bookmarks.set() == image(image(old(self).bookmarks.set(), block_map(a, merge_map(n as nat))),
                    shift_clamp_map(b, 1 - n))
            }),
            !r ==> *final(self) == *old(self),
    {
        proof {
            self.lemma_touched();
            reveal(lines_wf);
        }
        let count = self.doc.line_count();
        let (a, b) = if self.anchor.is_some() {
            self.touched_lines()
        } else {
            let a = self.cursor.line;
            if a + 1 >= count {
                return false;
            }
            (a, a + 1)
        };
        let phantom = b + 1 == count && a < b && self.doc.body_len(b) == 0;
        let last = if phantom { b - 1 } else { b };
        if last <= a {
            return false;
        }
        let start = self.doc.line_to_char(a);
        let end = self.region_end_of(b);
        let parts = self.bodies_of(a, last);
        let joined = merge_parts(&parts);
        let n = last - a + 1;
        let map = first_only_map(n);
        let blk = LineBlock { a, b, start, end, push_nl: b + 1 < count || phantom, lines: parts };
        let mut new_lines: Vec<Vec<char>> = Vec::new();
        new_lines.push(joined);
        proof {
            assert(texts(new_lines@) =~= seq![old(self).merged()]);
            lemma_text_of_len_lines(self.ls());
        }
        self.apply_line_block(&blk, &new_lines, &map);
        let marks = shift_bookmarks_below(&self.bookmarks, b, 0 - ((n - 1) as isize));
        self.bookmarks = marks;
        true
    }
}

/// Segments with the trailing empty ones dropped (one is kept).
pub open spec fn drop_trailing_empty(segs: Seq<Seq<char>>) -> Seq<Seq<char>>
    decreases segs.len(),
{
    if segs.len() <= 1 || segs.last().len() > 0 { segs } else { drop_trailing_empty(segs.drop_last()) }
}

/// Dropping trailing empty segments never adds any.
pub proof fn lemma_drop_trailing_len(segs: Seq<Seq<char>>)
    ensures
        drop_trailing_empty(segs).len() <= segs.len(),
        segs.len() >= 1 ==> drop_trailing_empty(segs).len() >= 1,
    decreases segs.len(),
{
    if !(segs.len() <= 1 || segs.last().len() > 0) {
        lemma_drop_trailing_len(segs.drop_last());
    }
}

impl EditorCore {
    /// The ends of the part a split takes out: the selection, or the cursor
    /// twice.
    pub open spec fn split_ends(&self) -> (CursorPos, CursorPos) {
        match self.sel_ordered() {
            Some(p) => p,
            None => (self.cursor, self.cursor),
        }
    }

    /// The selected text cut at its line breaks.
    pub open spec fn sel_segments(&self) -> Seq<Seq<char>> {
        let (s, e) = self.split_ends();
        if s.line == e.line {
            seq![self.ls()[s.line as int].body.subrange(s.col as int, e.col as int)]
        } else {
            seq![self.ls()[s.line as int].body.skip(s.col as int)] + bodies(self.ls(), s.line + 1, e.line - 1)
                + seq![self.ls()[e.line as int].body.take(e.col as int)]
        }
    }

    /// The lines a split takes out: none for an empty selection, else the
    /// selected text's lines without trailing empty ones.
    pub open spec fn split_middle(&self) -> Seq<Seq<char>> {
        let (s, e) = self.split_ends();
        if self.off_of(e) <= self.off_of(s) { seq![] } else { drop_trailing_empty(self.sel_segments()) }
    }

    /// The lines after a split: the text before the selection, the
    /// selection's lines, the text after it.
    pub open spec fn split_result(&self) -> Seq<Seq<char>> {
        let (s, e) = self.split_ends();
        seq![self.ls()[s.line as int].body.take(s.col as int)] + self.split_middle()
            + seq![self.ls()[e.line as int].body.skip(e.col as int)]
    }

    /// Where the split lines' bookmarks go (see [`split_map_of`]).
    pub open spec fn split_map(&self) -> Seq<Option<usize>> {
        let (s, e) = self.split_ends();
        split_map_of(e.line - s.line, self.split_middle().len() as int, self.split_result().len() - 1)
    }

    /// The lines the selection `s..e` splits out (see
    /// [`Self::split_middle`]).
    fn split_middle_lines(&self, s: CursorPos, e: CursorPos) -> (r: Vec<Vec<char>>)
        requires
            self.wf(),
            (s, e) == self.split_ends(),
        ensures
            texts(r@) == self.split_middle(),
    {
        proof {
            reveal(lines_wf);
            crate::edit::lemma_pos_order(self.ls(), s, e);
        }
        let mut middle: Vec<Vec<char>> = Vec::new();
        let off_s = self.offset_of_pos(s);
        let off_e = self.offset_of_pos(e);
        if off_e <= off_s {
            assert(texts(middle@) =~= Seq::<Seq<char>>::empty());
            return middle;
        }
        let body_s = self.doc.body_chars(s.line);
        let body_e = self.doc.body_chars(e.line);
        if s.line == e.line {
            middle.push(sub_chars(body_s.as_slice(), s.col, e.col));
            proof {
                assert(texts(middle@) =~= self.sel_segments());
            }
        } else {
            middle.push(sub_chars(body_s.as_slice(), s.col, body_s.len()));
            proof {
                assert(body_s@.subrange(s.col as int, body_s@.len() as int) =~= body_s@.skip(s.col as int));
                assert(texts(middle@) =~= seq![self.ls()[s.line as int].body.skip(s.col as int)]);
            }
            let inner = self.bodies_of(s.line + 1, e.line - 1);
            let mut k: usize = 0;
            let ghost m0 = texts(middle@);
            while k < inner.len()
                invariant
                    k <= inner@.len(),
                    texts(middle@) == m0 + texts(inner@).take(k as int),
                decreases inner@.len() - k,
            {
                let c = crate::strs::copy_chars(inner[k].as_slice());
                let ghost pm = texts(middle@);
                middle.push(c);
                proof {
                    assert(texts(middle@) =~= pm.push(inner@[k as int]@));
                    assert(texts(inner@).take(k + 1) =~= texts(inner@).take(k as int).push(inner@[k as int]@));
                    assert(texts(middle@) =~= m0 + texts(inner@).take(k + 1));
                }
                k = k + 1;
            }
            proof {
                assert(texts(inner@).take(k as int) =~= texts(inner@));
            }
            let ghost pm = texts(middle@);
            middle.push(sub_chars(body_e.as_slice(), 0, e.col));
            proof {
                assert(body_e@.subrange(0, e.col as int) =~= body_e@.take(e.col as int));
                assert(texts(middle@) =~= pm.push(body_e@.take(e.col as int)));
                assert(texts(middle@) =~= self.sel_segments());
            }
        }
        while middle.len() > 1 && middle[middle.len() - 1].len() == 0
            invariant
                middle@.len() >= 1,
                drop_trailing_empty(texts(middle@)) == drop_trailing_empty(self.sel_segments()),
            decreases middle@.len(),
        {
            let ghost pm = texts(middle@);
            middle.pop();
            proof {
                assert(texts(middle@) =~= pm.drop_last());
            }
        }
        proof {
            assert(drop_trailing_empty(texts(middle@)) == texts(middle@));
        }
        middle
    }

    /// The lines after a split (see [`Self::split_result`]).
    fn split_result_lines(&self, s: CursorPos, e: CursorPos, middle: &Vec<Vec<char>>) -> (r: Vec<Vec<char>>)
        requires
            self.wf(),
            (s, e) == self.split_ends(),
            texts(middle@) == self.split_middle(),
        ensures
            texts(r@) == self.split_result(),
    {
        proof {
            reveal(lines_wf);
            crate::edit::lemma_pos_order(self.ls(), s, e);
        }
        let body_s = self.doc.body_chars(s.line);
        let body_e = self.doc.body_chars(e.line);
        let pre = sub_chars(body_s.as_slice(), 0, s.col);
        let post = sub_chars(body_e.as_slice(), e.col, body_e.len());
        let mut new_lines: Vec<Vec<char>> = Vec::new();
        new_lines.push(pre);
        let mut k: usize = 0;
        let ghost n0 = texts(new_lines@);
        while k < middle.len()
            invariant
                k <= middle@.len(),
                texts(new_lines@) == n0 + texts(middle@).take(k as int),
            decreases middle@.len() - k,
        {
            let c = crate::strs::copy_chars(middle[k].as_slice());
            let ghost pn = texts(new_lines@);
            new_lines.push(c);
            proof {
                assert(texts(new_lines@) =~= pn.push(middle@[k as int]@));
                assert(texts(middle@).take(k + 1) =~= texts(middle@).take(k as int).push(middle@[k as int]@));
                assert(texts(new_lines@) =~= n0 + texts(middle@).take(k + 1));
            }
            k = k + 1;
        }
        let ghost pn = texts(new_lines@);
        new_lines.push(post);
        proof {
            assert(body_s@.subrange(0, s.col as int) =~= body_s@.take(s.col as int));
            assert(body_e@.subrange(e.col as int, body_e@.len() as int) =~= body_e@.skip(e.col as int));
            assert(texts(middle@).take(k as int) =~= texts(middle@));
            assert(texts(new_lines@) =~= pn.push(body_e@.skip(e.col as int)));
            assert(texts(new_lines@) =~= self.split_result());
        }
        new_lines
    }

    /// Splits the line: without a selection at the cursor, with one the
    /// selected text goes on lines of its own (cut at its line breaks) with
    /// what was before and after it left on their lines. The lines are
    /// rebuilt with the dominant ending. The cursor goes to the start of
    /// the line after the first. Bookmarks: the first line's stay, the
    /// selection's lines' follow them, those below move by the change in
    /// line count. Returns whether anything changed; a split that gives the
    /// lines back unchanged leaves everything as it was.
    #[verifier::rlimit(40)]
    pub fn split_line(&mut self) -> (r: bool)
        requires
            old(self).wf(),
            old(self).doc.text().len() < isize::MAX,
            old(self).rebuild_fits(old(self).split_ends().0.line as int, old(self).split_ends().1.line as int,
                old(self).split_result(),
                old(self).tail_nl(old(self).split_ends().0.line as int, old(self).split_ends().1.line as int)),
        ensures
            ({
                let (s, e) = old(self).split_ends();
                &&& r == (old(self).split_result() != bodies(old(self).ls(), s.line as int, e.line as int))
                &&& r ==> old(self).block_written(final(self), s.line as int, e.line as int, old(self).split_result(),
                    old(self).tail_nl(s.line as int, e.line as int))
                &&& r ==> final(self).cursor == (CursorPos {
                    line: if s.line + 1 < final(self).ls().len() { (s.line + 1) as usize } else { (final(self).ls().len() - 1) as usize },
                    col: 0 })
                &&& r ==> final(self).bookmarks.set() == image(image(old(self).bookmarks.set(),
                    block_map(s.line as int, old(self).split_map())),
                    shift_clamp_map(e.line as int, old(self).split_result().len() - (e.line - s.line + 1)))
            }),
            !r ==> *final(self) == *old(self),
    {
        let (s, e) = match self.ordered_selection() {
            Some(p) => p,
            None => (self.cursor, self.cursor),
        };
        proof {
            reveal(lines_wf);
            crate::edit::lemma_pos_order(self.ls(), s, e);
            lemma_text_of_len_lines(self.ls());
            lemma_region(self.ls(), s.line as int, e.line as int);
        }
        let ls = s.line;
        let le = e.line;
        let middle = self.split_middle_lines(s, e);
        let new_lines = self.split_result_lines(s, e, &middle);
        let old_lines = self.bodies_of(ls, le);
        if same_lines(&new_lines, &old_lines) {
            return false;
        }
        let count = self.doc.line_count();
        let start = self.doc.line_to_char(ls);
        let end = self.region_end_of(le);
        let phantom = le + 1 == count && ls < le && self.doc.body_len(le) == 0;
        let span = le - ls;
        let n_new = new_lines.len();
        proof {
            lemma_drop_trailing_len(old(self).sel_segments());
        }
        let map = split_map_vec(span, middle.len(), n_new - 1);
        let blk = LineBlock { a: ls, b: le, start, end, push_nl: le + 1 < count || phantom, lines: old_lines };
        self.apply_line_block(&blk, &new_lines, &map);
        proof {
            assert(old(self).sel_segments().len() == span + 1);
        }
        let delta: isize = if n_new >= span + 1 {
            (n_new - (span + 1)) as isize
        } else {
            0 - ((span + 1 - n_new) as isize)
        };
        assert(delta == n_new - (span + 1));
        let marks = shift_bookmarks_below(&self.bookmarks, le, delta);
        self.bookmarks = marks;
        let n2 = self.doc.line_count();
        let target = if ls + 1 < n2 { ls + 1 } else { n2 - 1 };
        self.cursor = CursorPos { line: target, col: 0 };
        true
    }
}

/// A split's bookmark map for a block of `span + 1` lines of which the
/// first `m` after the first are taken out: line 0 stays, lines `1..=m`
/// keep their place, later ones go to line `last`.
pub open spec fn split_map_of(span: int, m: int, last: int) -> Seq<Option<usize>> {
    Seq::new((span + 1) as nat, |rel: int| if rel == 0 { Some(0usize) } else if rel <= m { Some(rel as usize) } else { Some(last as usize) })
}

/// The vector of [`split_map_of`].
fn split_map_vec(span: usize, m: usize, last: usize) -> (map: Vec<Option<usize>>)
    requires
        span < usize::MAX,
    ensures
        map@ == split_map_of(span as int, m as int, last as int),
{
    let mut map: Vec<Option<usize>> = Vec::new();
    let mut rel: usize = 0;
    while rel <= span
        invariant
            rel <= span + 1,
            span < usize::MAX,
            map@ == split_map_of(span as int, m as int, last as int).take(rel as int),
        decreases span + 1 - rel,
    {
        if rel == 0 {
            map.push(Some(0));
        } else if rel <= m {
            map.push(Some(rel));
        } else {
            map.push(Some(last));
        }
        rel = rel + 1;
        proof {
            assert(map@ =~= split_map_of(span as int, m as int, last as int).take(rel as int));
        }
    }
    proof {
        assert(map@ =~= split_map_of(span as int, m as int, last as int));
    }
    map
}

} // verus!
