//! Whole-line operations on the touched lines (or the whole document):
//! tab/space conversion, sorting, duplicate removal, blank-line removal,
//! line comments.

use vstd::prelude::*;
use crate::document::{ending_chars, LineV, Eol, no_breaks, is_break_char, text_of, line_start};
use crate::linesplit::{lemma_block_lines, lemma_region_text, lemma_rest_text};
use crate::editor::{EditorCore, TabSpaceKind, SortOrder, TrimMode, BlankKind, push_capped, SnapV, edit_frame};
use crate::lineblock::{texts, bodies, rebuild, join_with, kept_cursor, LineBlock, lemma_body_len, lemma_region};
use crate::lineset::image;
use crate::marks::{block_map, shift_clamp_map, shift_bookmarks_below};
use crate::strs::{same_chars, copy_chars};
use crate::sorting::{sorted_lines, sort_map, sort_perm, stable_sort_perm, inverse_map, ints, is_perm, SortKey, line_before,
    law_sorted_lines_in_order};
use crate::tabs::{spec_expand_tabs, spec_entab, expand_tabs_chars, entab_chars, trim, trim_start, trim_end, trim_chars,
    all_ws, lead_ws, lemma_lead_ws, lead_ws_len, spec_is_whitespace, trail_ws, lemma_trail_ws};
use crate::document::{lines_wf, lemma_text_of_len_lines};

verus! {

/// A map that leaves every line of an `n`-line block in place.
pub open spec fn id_map(n: nat) -> Seq<Option<usize>> {
    Seq::new(n, |i: int| Some(i as usize))
}

/// Moving lines by [`id_map`] leaves the bookmarks as they are.
pub proof fn lemma_id_map_image(s: Set<usize>, a: int, n: nat)
    requires
        0 <= a,
        a + n <= usize::MAX,
    ensures
        image(s, block_map(a, id_map(n))) == s,
{
    assert forall|x: usize| s.contains(x) implies #[trigger] image(s, block_map(a, id_map(n))).contains(x) by {
        assert((block_map(a, id_map(n)))(x) == Some(x));
    }
    assert forall|x: usize| image(s, block_map(a, id_map(n))).contains(x) implies s.contains(x) by {
        let l = choose|l: usize| s.contains(l) && (block_map(a, id_map(n)))(l) == Some(x);
        assert((block_map(a, id_map(n)))(l) == Some(l));
    }
    assert(image(s, block_map(a, id_map(n))) =~= s);
}

/// A line after tab/space conversion.
pub open spec fn tab_convert(s: Seq<char>, kind: TabSpaceKind) -> Seq<char> {
    match kind {
        TabSpaceKind::LeadingTabsToSpaces => spec_expand_tabs(s, true),
        TabSpaceKind::AllTabsToSpaces => spec_expand_tabs(s, false),
        TabSpaceKind::LeadingSpacesToTabs => spec_entab(s),
    }
}

impl EditorCore {
    /// The bodies a block operation rewrites (see
    /// [`EditorCore::collect_line_block`]).
    pub open spec fn block_bodies(&self) -> Seq<Seq<char>> {
        bodies(self.ls(), self.scope().0, self.block_last(self.scope().0, self.scope().1))
    }

    /// The text after the block's bodies are replaced by `new` fits.
    pub open spec fn block_fits(&self, new: Seq<Seq<char>>) -> bool {
        self.rebuild_fits(self.scope().0, self.scope().1, new, self.tail_nl(self.scope().0, self.scope().1))
    }

    /// What rewriting lines `a..=b` into `new` (and a final line break
    /// when `tail`) leaves, the cursor aside: that text, one undo entry, no
    /// selection.
    pub open spec fn block_written(&self, post: &EditorCore, a: int, b: int, new: Seq<Seq<char>>, tail: bool) -> bool {
        &&& post.wf()
        &&& post.doc.text() == self.text_with_block(a, b, new, tail)
        &&& post.doc.ending == self.doc.ending
        &&& post.undo_view() == push_capped(self.undo_view(), self.snap())
        &&& post.redo_view() == Seq::<SnapV>::empty()
        &&& post.typing_run is None
        &&& post.anchor is None
        &&& post.block_sel == self.block_sel
        &&& post.saved_baseline == self.saved_baseline
        &&& post.overwrite == self.overwrite
        &&& post.focused == self.focused
        &&& post.syntax_name == self.syntax_name
        &&& edit_frame(self, post)
        &&& post.extra_cursors == self.extra_cursors
    }

    /// [`Self::block_written`], the cursor kept in the block.
    pub open spec fn block_rewritten(&self, post: &EditorCore, a: int, b: int, new: Seq<Seq<char>>, tail: bool) -> bool {
        &&& self.block_written(post, a, b, new, tail)
        &&& post.cursor == kept_cursor(self.cursor, a, b, post.ls())
    }

    /// What a block operation that rewrites the block's bodies into `new`
    /// leaves (see [`Self::block_rewritten`]), bookmarks moved by `map`.
    pub open spec fn block_applied(&self, post: &EditorCore, new: Seq<Seq<char>>, map: Seq<Option<usize>>) -> bool {
        &&& self.block_rewritten(post, self.scope().0, self.scope().1, new, self.tail_nl(self.scope().0, self.scope().1))
        &&& post.bookmarks.set() == image(self.bookmarks.set(), block_map(self.scope().0, map))
    }

    /// Converts tabs and spaces in the touched lines (the whole document
    /// without a selection), aligned to the renderer's tab stops. Returns
    /// whether anything changed; no change leaves everything as it was.
    /// Bookmarks stay (the line count does not change).
    pub fn convert_tabs_spaces(&mut self, kind: TabSpaceKind) -> (r: bool)
        requires
            old(self).wf(),
            4 * old(self).doc.text().len() <= usize::MAX,
            old(self).block_fits(old(self).block_bodies().map_values(|s: Seq<char>| tab_convert(s, kind))),
        ensures
            r == (old(self).block_bodies().map_values(|s: Seq<char>| tab_convert(s, kind)) != old(self).block_bodies()),
            r ==> old(self).block_applied(final(self), old(self).block_bodies().map_values(|s: Seq<char>| tab_convert(s, kind)),
                id_map(old(self).block_bodies().len())),
            r ==> final(self).bookmarks.set() == old(self).bookmarks.set(),
            !r ==> *final(self) == *old(self),
    {
        let blk = self.collect_line_block();
        let ghost src = texts(blk.lines@);
        let mut lines: Vec<Vec<char>> = Vec::new();
        let mut changed = false;
        let mut i: usize = 0;
        proof {
            assert(texts(lines@) =~= src.take(0));
            lemma_body_len(self.ls());
            assert forall|j: int| 0 <= j < src.len() implies 4 * (#[trigger] src[j]).len() <= usize::MAX by {
                assert(src[j] == self.ls()[blk.a + j].body);
            }
        }
        while i < blk.lines.len()
            invariant
                i <= blk.lines@.len(),
                src == texts(blk.lines@),
                texts(lines@) == src.take(i as int).map_values(|s: Seq<char>| tab_convert(s, kind)),
                changed == (texts(lines@) != src.take(i as int)),
                forall|j: int| 0 <= j < src.len() ==> 4 * (#[trigger] src[j]).len() <= usize::MAX,
            decreases blk.lines@.len() - i,
        {
            let line = &blk.lines[i];
            assert(line@ == src[i as int]);
            let t = match kind {
                TabSpaceKind::LeadingTabsToSpaces => expand_tabs_chars(line.as_slice(), true),
                TabSpaceKind::AllTabsToSpaces => expand_tabs_chars(line.as_slice(), false),
                TabSpaceKind::LeadingSpacesToTabs => entab_chars(line.as_slice()),
            };
            let same = same_chars(t.as_slice(), line.as_slice());
            let ghost prev = texts(lines@);
            let ghost tv = t@;
            lines.push(t);
            proof {
                assert(texts(lines@) =~= prev.push(tv));
                assert(src.take(i + 1) =~= src.take(i as int).push(src[i as int]));
                assert(src.take(i + 1).map_values(|s: Seq<char>| tab_convert(s, kind))
                    =~= src.take(i as int).map_values(|s: Seq<char>| tab_convert(s, kind)).push(tab_convert(src[i as int], kind)));
                if !changed && same {
                    assert(texts(lines@) =~= src.take(i + 1));
                } else if !same {
                    assert(texts(lines@)[i as int] != src.take(i + 1)[i as int]);
                } else {
                    assert(texts(lines@).drop_last() =~= prev);
                    assert(src.take(i + 1).drop_last() =~= src.take(i as int));
                }
            }
            changed = changed || !same;
            i = i + 1;
        }
        proof {
            assert(src.take(i as int) =~= src);
        }
        if !changed {
            return false;
        }
        let n = lines.len();
        assert(texts(lines@).len() == n);
        let count = self.doc.line_count();
        assert(blk.a + n <= count);
        let mut map: Vec<Option<usize>> = Vec::new();
        let mut k: usize = 0;
        while k < n
            invariant
                k <= n,
                map@ == id_map(n as nat).take(k as int),
            decreases n - k,
        {
            map.push(Some(k));
            k = k + 1;
            proof {
                assert(map@ =~= id_map(n as nat).take(k as int));
            }
        }
        proof {
            assert(map@ =~= id_map(n as nat));
        }
        self.apply_line_block(&blk, &lines, &map);
        proof {
            lemma_id_map_image(old(self).bookmarks.set(), blk.a as int, n as nat);
        }
        true
    }
}

/// The order sorts descending.
pub open spec fn is_desc(o: SortOrder) -> bool {
    o == SortOrder::Descending
}

impl EditorCore {
    /// Sorts the touched lines (the whole document without a selection) in
    /// code-point order, stably; bookmarks follow their lines. Returns
    /// whether anything changed: a block of fewer than two lines, or one
    /// already in order, is left as it was.
    pub fn sort_lines(&mut self, order: SortOrder) -> (r: bool)
        requires
            old(self).wf(),
            old(self).block_fits(sorted_lines(old(self).block_bodies(), is_desc(order), SortKey::Text)),
        ensures
            r == (old(self).block_bodies().len() > 1
                && sorted_lines(old(self).block_bodies(), is_desc(order), SortKey::Text) != old(self).block_bodies()),
            r ==> old(self).block_applied(final(self), sorted_lines(old(self).block_bodies(), is_desc(order), SortKey::Text),
                sort_map(old(self).block_bodies(), is_desc(order), SortKey::Text)),
            !r ==> *final(self) == *old(self),
    {
        self.sort_lines_by(order, SortKey::Text)
    }

    /// Sorts the touched lines by their number of characters, stably (see
    /// [`EditorCore::sort_lines`]).
    pub fn sort_lines_length(&mut self, order: SortOrder) -> (r: bool)
        requires
            old(self).wf(),
            old(self).block_fits(sorted_lines(old(self).block_bodies(), is_desc(order), SortKey::Length)),
        ensures
            r == (old(self).block_bodies().len() > 1
                && sorted_lines(old(self).block_bodies(), is_desc(order), SortKey::Length) != old(self).block_bodies()),
            r ==> old(self).block_applied(final(self), sorted_lines(old(self).block_bodies(), is_desc(order), SortKey::Length),
                sort_map(old(self).block_bodies(), is_desc(order), SortKey::Length)),
            !r ==> *final(self) == *old(self),
    {
        self.sort_lines_by(order, SortKey::Length)
    }

    /// Sorts the touched lines by the integer each holds (the first run of
    /// digits, with a `-` right before it), stably; lines without a number
    /// go last in either direction (see [`EditorCore::sort_lines`]).
    pub fn sort_lines_numeric(&mut self, order: SortOrder) -> (r: bool)
        requires
            old(self).wf(),
            old(self).block_fits(sorted_lines(old(self).block_bodies(), is_desc(order), SortKey::Number)),
        ensures
            r == (old(self).block_bodies().len() > 1
                && sorted_lines(old(self).block_bodies(), is_desc(order), SortKey::Number) != old(self).block_bodies()),
            r ==> old(self).block_applied(final(self), sorted_lines(old(self).block_bodies(), is_desc(order), SortKey::Number),
                sort_map(old(self).block_bodies(), is_desc(order), SortKey::Number)),
            !r ==> *final(self) == *old(self),
    {
        self.sort_lines_by(order, SortKey::Number)
    }

    /// Sorts the touched lines stably by `by`.
    fn sort_lines_by(&mut self, order: SortOrder, by: SortKey) -> (r: bool)
        requires
            old(self).wf(),
            old(self).block_fits(sorted_lines(old(self).block_bodies(), is_desc(order), by)),
        ensures
            r == (old(self).block_bodies().len() > 1
                && sorted_lines(old(self).block_bodies(), is_desc(order), by) != old(self).block_bodies()),
            r ==> old(self).block_applied(final(self), sorted_lines(old(self).block_bodies(), is_desc(order), by),
                sort_map(old(self).block_bodies(), is_desc(order), by)),
            !r ==> *final(self) == *old(self),
    {
        let blk = self.collect_line_block();
        if blk.lines.len() <= 1 {
            return false;
        }
        let desc = match order {
            SortOrder::Descending => true,
            SortOrder::Ascending => false,
        };
        let ghost src = texts(blk.lines@);
        let ghost n = src.len();
        let perm = stable_sort_perm(&blk.lines, desc, by);
        let ghost q = ints(perm@);
        let mut sorted: Vec<Vec<char>> = Vec::new();
        let mut same = true;
        let mut m: usize = 0;
        proof {
            assert(texts(sorted@) =~= src.take(0));
            assert(texts(sorted@) =~= sorted_lines(src, desc, by).take(0));
        }
        while m < perm.len()
            invariant
                m <= perm@.len() == blk.lines@.len() == n,
                src == texts(blk.lines@),
                q == ints(perm@),
                q == sort_perm(src, n, desc, by),
                is_perm(q, n as int),
                texts(sorted@) == sorted_lines(src, desc, by).take(m as int),
                same == (texts(sorted@) == src.take(m as int)),
            decreases n - m,
        {
            let i = perm[m];
            assert(q[m as int] == i as int);
            let line = copy_chars(blk.lines[i].as_slice());
            let eq = same_chars(line.as_slice(), blk.lines[m].as_slice());
            let ghost prev = texts(sorted@);
            let ghost lv = line@;
            sorted.push(line);
            proof {
                assert(texts(sorted@) =~= prev.push(lv));
                assert(lv == sorted_lines(src, desc, by)[m as int]);
                assert(sorted_lines(src, desc, by).take(m + 1) =~= sorted_lines(src, desc, by).take(m as int).push(lv));
                assert(src.take(m + 1) =~= src.take(m as int).push(src[m as int]));
                if same && eq {
                    assert(texts(sorted@) =~= src.take(m + 1));
                } else if !eq {
                    assert(texts(sorted@)[m as int] != src.take(m + 1)[m as int]);
                } else {
                    assert(texts(sorted@).drop_last() =~= prev);
                    assert(src.take(m + 1).drop_last() =~= src.take(m as int));
                }
            }
            same = same && eq;
            m = m + 1;
        }
        proof {
            assert(src.take(n as int) =~= src);
            assert(sorted_lines(src, desc, by).take(n as int) =~= sorted_lines(src, desc, by));
        }
        if same {
            return false;
        }
        let map = inverse_map(&perm);
        proof {
            assert(map@ =~= sort_map(src, desc, by));
        }
        self.apply_line_block(&blk, &sorted, &map);
        true
    }
}

/// What a line sort writes over the block: every line of the block exactly
/// once, each at or before the next by the key and direction, and the text
/// around the block untouched (see [`EditorCore::sort_lines`]).
pub proof fn law_sort_block(e: &EditorCore, post: &EditorCore, order: SortOrder, by: SortKey)
    requires
        e.block_applied(post, sorted_lines(e.block_bodies(), is_desc(order), by),
            sort_map(e.block_bodies(), is_desc(order), by)),
    ensures
        ({
            let src = e.block_bodies();
            let out = sorted_lines(src, is_desc(order), by);
            let p = sort_perm(src, src.len(), is_desc(order), by);
            &&& is_perm(p, src.len() as int)
            &&& out.len() == src.len()
            &&& forall|i: int| 0 <= i < out.len() ==> out[i] == src[#[trigger] p[i]]
            &&& forall|i: int, j: int| 0 <= i < j < out.len() ==> line_before(by, #[trigger] out[i], #[trigger] out[j], is_desc(order))
            &&& post.doc.text() == e.doc.text().take(e.doc.lstart(e.scope().0)) + rebuild(out,
                ending_chars(e.doc.ending), e.tail_nl(e.scope().0, e.scope().1)) + e.doc.text().skip(e.region_end(e.scope().1))
        }),
{
    law_sorted_lines_in_order(e.block_bodies(), is_desc(order), by);
}

/// A sort rewrites the lines it works on in place: the document keeps its
/// number of lines, the block's lines are the sorted lines in order, and
/// the lines around the block, an empty line after a final line break
/// included, stay as they were (see [`EditorCore::sort_lines`]). Left out:
/// a block right after a lone `\r` break.
pub proof fn law_sort_lines_in_place(e: &EditorCore, post: &EditorCore, order: SortOrder, by: SortKey)
    requires
        e.wf(),
        !(e.scope().0 > 0 && e.ls()[e.scope().0 - 1].eol == Eol::Cr),
        e.block_applied(post, sorted_lines(e.block_bodies(), is_desc(order), by),
            sort_map(e.block_bodies(), is_desc(order), by)),
    ensures
        post.ls().len() == e.ls().len(),
        forall|i: int| 0 <= i < e.scope().0 ==> #[trigger] post.ls()[i] == e.ls()[i],
        forall|i: int| e.scope().0 <= i < e.scope().0 + e.block_bodies().len() ==> (#[trigger] post.ls()[i]).body
            == sorted_lines(e.block_bodies(), is_desc(order), by)[i - e.scope().0],
        forall|i: int| e.scope().0 + e.block_bodies().len() <= i < e.ls().len() ==> #[trigger] post.ls()[i] == e.ls()[i],
{
    reveal(lines_wf);
    e.lemma_touched();
    let ls = e.ls();
    let n = ls.len() as int;
    let (a, b) = e.scope();
    let src = e.block_bodies();
    let out = sorted_lines(src, is_desc(order), by);
    law_sorted_lines_in_order(src, is_desc(order), by);
    let p = sort_perm(src, src.len(), is_desc(order), by);
    let ph = e.phantom(a, b);
    assert(src.len() == e.block_last(a, b) - a + 1);
    assert forall|i: int| 0 <= i < out.len() implies no_breaks(#[trigger] out[i]) by {
        assert(src[p[i]] == ls[a + p[i]].body);
        assert(no_breaks(ls[a + p[i]].body));
    }
    let nl = ending_chars(e.doc.ending);
    lemma_region_text(ls, a, b);
    assert(e.doc.lstart(a) == text_of(ls.take(a)).len());
    assert(e.region_end(b) == line_start(ls, b + 1));
    let tx = e.doc.text();
    assert(tx.take(e.doc.lstart(a)) =~= text_of(ls.take(a)));
    assert(tx.skip(e.region_end(b)) =~= text_of(ls.skip(b + 1)));
    let outs = if ph { out.push(Seq::<char>::empty()) } else { out };
    assert(rebuild(out, nl, e.tail_nl(a, b)) == rebuild(outs, nl, b < n - 1)) by {
        if ph {
            assert(outs.drop_last() =~= out);
            assert(join_with(outs, nl) =~= join_with(out, nl) + nl);
        }
    }
    assert forall|j: int| 0 <= j < outs.len() implies no_breaks(#[trigger] outs[j]) by {
        if j < out.len() {
            assert(outs[j] == out[j]);
        }
    }
    lemma_block_lines(ls, post.ls(), a, b, outs, e.doc.ending);
    assert forall|i: int| a <= i < a + src.len() implies (#[trigger] post.ls()[i]).body == out[i - a] by {
        assert(outs[i - a] == out[i - a]);
    }
    if ph {
        assert(post.ls().last() == post.ls()[n - 1]);
        assert(ls.last() == ls[n - 1]);
        assert(post.ls()[n - 1].body == outs[n - 1 - a]);
        assert(post.ls()[n - 1] == ls[n - 1]);
    }
}

/// The lines with every repeat of an earlier line left out.
pub open spec fn dedup(s: Seq<Seq<char>>) -> Seq<Seq<char>>
    decreases s.len(),
{
    if s.len() == 0 {
        seq![]
    } else {
        let d = dedup(s.drop_last());
        if d.contains(s.last()) { d } else { d.push(s.last()) }
    }
}

/// Where each line goes when repeats are removed: a first occurrence to
/// its place among the kept lines, a repeat nowhere.
pub open spec fn dedup_map(s: Seq<Seq<char>>) -> Seq<Option<usize>> {
    Seq::new(s.len(), |i: int| if s.take(i).contains(s[i]) { None } else { Some(dedup(s.take(i)).len() as usize) })
}

/// Removing repeats keeps exactly the lines there were.
pub proof fn lemma_dedup_contains(s: Seq<Seq<char>>, x: Seq<char>)
    ensures
        dedup(s).contains(x) == s.contains(x),
        dedup(s).len() <= s.len(),
    decreases s.len(),
{
    if s.len() > 0 {
        lemma_dedup_contains(s.drop_last(), x);
        let d = dedup(s.drop_last());
        if s.contains(x) && !s.drop_last().contains(x) {
            let j = choose|j: int| 0 <= j < s.len() && s[j] == x;
            if j < s.len() - 1 {
                assert(s.drop_last()[j] == x);
            }
            assert(d.push(s.last())[d.len() as int] == x);
        }
        if s.drop_last().contains(x) {
            let j = choose|j: int| 0 <= j < s.len() - 1 && s.drop_last()[j] == x;
            assert(s[j] == x);
        }
        if d.push(s.last()).contains(x) && !d.contains(x) {
            let j = choose|j: int| 0 <= j < d.len() + 1 && d.push(s.last())[j] == x;
            assert(j == d.len());
            assert(s[s.len() - 1] == x);
        }
        if d.contains(x) {
            let j = choose|j: int| 0 <= j < d.len() && d[j] == x;
            assert(d.push(s.last())[j] == x);
        }
    }
}

/// No line occurs twice.
pub open spec fn no_repeats(s: Seq<Seq<char>>) -> bool {
    forall|i: int, j: int| 0 <= i < j < s.len() ==> #[trigger] s[i] != #[trigger] s[j]
}

/// Removing repeated lines leaves every line that was there exactly once,
/// and a text without repeats is left as it is.
pub proof fn law_dedup_once_each(s: Seq<Seq<char>>)
    ensures
        no_repeats(dedup(s)),
        forall|x: Seq<char>| #[trigger] dedup(s).contains(x) == s.contains(x),
        no_repeats(s) ==> dedup(s) == s,
    decreases s.len(),
{
    assert forall|x: Seq<char>| #[trigger] dedup(s).contains(x) == s.contains(x) by {
        lemma_dedup_contains(s, x);
    }
    if s.len() > 0 {
        let t = s.drop_last();
        law_dedup_once_each(t);
        let d = dedup(t);
        if !d.contains(s.last()) {
            let e = d.push(s.last());
            assert forall|i: int, j: int| 0 <= i < j < e.len() implies #[trigger] e[i] != #[trigger] e[j] by {
                if j == d.len() {
                    assert(e[i] == d[i]);
                    if d[i] == s.last() {
                        assert(d.contains(s.last()));
                    }
                } else {
                    assert(e[i] == d[i] && e[j] == d[j]);
                }
            }
        }
        if no_repeats(s) {
            assert(no_repeats(t)) by {
                assert forall|i: int, j: int| 0 <= i < j < t.len() implies #[trigger] t[i] != #[trigger] t[j] by {
                    assert(t[i] == s[i] && t[j] == s[j]);
                }
            }
            assert(!t.contains(s.last())) by {
                if t.contains(s.last()) {
                    let w = choose|w: int| 0 <= w < t.len() && t[w] == s.last();
                    assert(s[w] == s[s.len() - 1]);
                }
            }
            lemma_dedup_contains(t, s.last());
            assert(d.push(s.last()) =~= s);
        }
    }
}

/// Whether `x` is one of `lines`.
pub fn contains_line(lines: &Vec<Vec<char>>, x: &[char]) -> (r: bool)
    ensures
        r == texts(lines@).contains(x@),
{
    let mut i: usize = 0;
    while i < lines.len()
        invariant
            i <= lines@.len(),
            forall|j: int| 0 <= j < i ==> texts(lines@)[j] != x@,
        decreases lines@.len() - i,
    {
        if same_chars(lines[i].as_slice(), x) {
            assert(texts(lines@)[i as int] == x@);
            return true;
        }
        i = i + 1;
    }
    false
}

impl EditorCore {
    /// Removes repeated lines from the touched lines (the whole document
    /// without a selection), keeping each first occurrence in order;
    /// bookmarks follow the kept lines, those on repeats are dropped.
    /// Returns whether anything changed: a block of fewer than two lines, or
    /// one without repeats, is left as it was.
    pub fn remove_duplicate_lines(&mut self) -> (r: bool)
        requires
            old(self).wf(),
            old(self).block_fits(dedup(old(self).block_bodies())),
        ensures
            r == (old(self).block_bodies().len() > 1
                && dedup(old(self).block_bodies()).len() != old(self).block_bodies().len()),
            r ==> old(self).block_applied(final(self), dedup(old(self).block_bodies()),
                dedup_map(old(self).block_bodies())),
            !r ==> *final(self) == *old(self),
    {
        let blk = self.collect_line_block();
        let n = blk.lines.len();
        if n <= 1 {
            return false;
        }
        let ghost src = texts(blk.lines@);
        let mut kept: Vec<Vec<char>> = Vec::new();
        let mut map: Vec<Option<usize>> = Vec::new();
        let mut i: usize = 0;
        proof {
            assert(src.take(0) =~= Seq::<Seq<char>>::empty());
            assert(texts(kept@) =~= dedup(src.take(0)));
            assert(map@ =~= dedup_map(src).take(0));
        }
        while i < n
            invariant
                i <= n == blk.lines@.len(),
                src == texts(blk.lines@),
                texts(kept@) == dedup(src.take(i as int)),
                map@ == dedup_map(src).take(i as int),
                kept@.len() <= i,
            decreases n - i,
        {
            let line = &blk.lines[i];
            assert(line@ == src[i as int]);
            let seen = contains_line(&kept, line.as_slice());
            proof {
                lemma_dedup_contains(src.take(i as int), src[i as int]);
                assert(src.take(i + 1).drop_last() =~= src.take(i as int));
                assert(src.take(i + 1).last() == src[i as int]);
            }
            let ghost pm = map@;
            let ghost pk = texts(kept@);
            if seen {
                map.push(None);
            } else {
                map.push(Some(kept.len()));
                let c = copy_chars(line.as_slice());
                kept.push(c);
                proof {
                    assert(texts(kept@) =~= pk.push(src[i as int]));
                }
            }
            proof {
                assert(map@ =~= dedup_map(src).take(i + 1));
            }
            i = i + 1;
        }
        proof {
            assert(src.take(n as int) =~= src);
            assert(map@ =~= dedup_map(src));
        }
        if kept.len() == n {
            return false;
        }
        self.apply_line_block(&blk, &kept, &map);
        true
    }
}

/// The lines with each run of equal neighbours cut to its first line.
pub open spec fn dedup_runs(s: Seq<Seq<char>>) -> Seq<Seq<char>>
    decreases s.len(),
{
    if s.len() == 0 {
        seq![]
    } else {
        let d = dedup_runs(s.drop_last());
        if s.len() >= 2 && s[s.len() - 2] == s.last() { d } else { d.push(s.last()) }
    }
}

/// Line `i` repeats the line right before it.
pub open spec fn repeats_prev(s: Seq<Seq<char>>, i: int) -> bool {
    i > 0 && s[i - 1] == s[i]
}

/// Where each line goes when runs are cut: the first line of a run to its
/// place among the kept lines, a repeat nowhere.
pub open spec fn dedup_runs_map(s: Seq<Seq<char>>) -> Seq<Option<usize>> {
    Seq::new(s.len(), |i: int| if repeats_prev(s, i) { None } else { Some(dedup_runs(s.take(i)).len() as usize) })
}

/// Where each line goes when a block of `n` lines is reversed.
pub open spec fn reverse_map(n: nat) -> Seq<Option<usize>> {
    Seq::new(n, |i: int| Some((n - 1 - i) as usize))
}

impl EditorCore {
    /// Reverses the order of the touched lines (the whole document without a
    /// selection); bookmarks follow their lines. Returns whether anything
    /// changed: a block that reads the same reversed is left as it was.
    pub fn reverse_lines(&mut self) -> (r: bool)
        requires
            old(self).wf(),
            old(self).block_fits(old(self).block_bodies().reverse()),
        ensures
            r == (old(self).block_bodies().reverse() != old(self).block_bodies()),
            r ==> old(self).block_applied(final(self), old(self).block_bodies().reverse(),
                reverse_map(old(self).block_bodies().len())),
            !r ==> *final(self) == *old(self),
    {
        let blk = self.collect_line_block();
        let n = blk.lines.len();
        let ghost src = texts(blk.lines@);
        let mut rev: Vec<Vec<char>> = Vec::new();
        let mut map: Vec<Option<usize>> = Vec::new();
        let mut same = true;
        let mut m: usize = 0;
        proof {
            assert(texts(rev@) =~= src.take(0));
            assert(texts(rev@) =~= src.reverse().take(0));
            assert(map@ =~= reverse_map(n as nat).take(0));
        }
        while m < n
            invariant
                m <= n == blk.lines@.len(),
                src == texts(blk.lines@),
                texts(rev@) == src.reverse().take(m as int),
                map@ == reverse_map(n as nat).take(m as int),
                same == (texts(rev@) == src.take(m as int)),
            decreases n - m,
        {
            let line = copy_chars(blk.lines[n - 1 - m].as_slice());
            let eq = same_chars(line.as_slice(), blk.lines[m].as_slice());
            let ghost prev = texts(rev@);
            let ghost lv = line@;
            rev.push(line);
            map.push(Some(n - 1 - m));
            proof {
                assert(texts(rev@) =~= prev.push(lv));
                assert(lv == src.reverse()[m as int]);
                assert(src.reverse().take(m + 1) =~= src.reverse().take(m as int).push(lv));
                assert(map@ =~= reverse_map(n as nat).take(m + 1));
                assert(src.take(m + 1) =~= src.take(m as int).push(src[m as int]));
                if same && eq {
                    assert(texts(rev@) =~= src.take(m + 1));
                } else if !eq {
                    assert(texts(rev@)[m as int] != src.take(m + 1)[m as int]);
                } else {
                    assert(texts(rev@).drop_last() =~= prev);
                    assert(src.take(m + 1).drop_last() =~= src.take(m as int));
                }
            }
            same = same && eq;
            m = m + 1;
        }
        proof {
            assert(src.take(n as int) =~= src);
            assert(src.reverse().take(n as int) =~= src.reverse());
            assert(map@ =~= reverse_map(n as nat));
        }
        if same {
            return false;
        }
        self.apply_line_block(&blk, &rev, &map);
        true
    }

    /// Cuts each run of equal neighbouring lines among the touched lines
    /// (the whole document without a selection) to its first line;
    /// bookmarks follow the kept lines, those on cut lines are dropped.
    /// Returns whether anything changed.
    pub fn remove_consecutive_duplicate_lines(&mut self) -> (r: bool)
        requires
            old(self).wf(),
            old(self).block_fits(dedup_runs(old(self).block_bodies())),
        ensures
            r == (dedup_runs(old(self).block_bodies()).len() != old(self).block_bodies().len()),
            r ==> old(self).block_applied(final(self), dedup_runs(old(self).block_bodies()),
                dedup_runs_map(old(self).block_bodies())),
            !r ==> *final(self) == *old(self),
    {
        let blk = self.collect_line_block();
        let n = blk.lines.len();
        let ghost src = texts(blk.lines@);
        let mut kept: Vec<Vec<char>> = Vec::new();
        let mut map: Vec<Option<usize>> = Vec::new();
        let mut i: usize = 0;
        proof {
            assert(src.take(0) =~= Seq::<Seq<char>>::empty());
            assert(texts(kept@) =~= dedup_runs(src.take(0)));
            assert(map@ =~= dedup_runs_map(src).take(0));
        }
        while i < n
            invariant
                i <= n == blk.lines@.len(),
                src == texts(blk.lines@),
                texts(kept@) == dedup_runs(src.take(i as int)),
                map@ == dedup_runs_map(src).take(i as int),
                kept@.len() <= i,
            decreases n - i,
        {
            let line = &blk.lines[i];
            assert(line@ == src[i as int]);
            let rep = i > 0 && same_chars(blk.lines[i - 1].as_slice(), line.as_slice());
            proof {
                let t = src.take(i + 1);
                assert(t.drop_last() =~= src.take(i as int));
                assert(t.last() == src[i as int]);
                if i > 0 {
                    assert(t[t.len() - 2] == src[i - 1]);
                    assert(texts(blk.lines@)[i - 1] == blk.lines@[i - 1]@);
                }
                assert(rep == repeats_prev(src, i as int));
            }
            let ghost pk = texts(kept@);
            if rep {
                map.push(None);
            } else {
                map.push(Some(kept.len()));
                let c = copy_chars(line.as_slice());
                kept.push(c);
                proof {
                    assert(texts(kept@) =~= pk.push(src[i as int]));
                }
            }
            proof {
                assert(map@ =~= dedup_runs_map(src).take(i + 1));
            }
            i = i + 1;
        }
        proof {
            assert(src.take(n as int) =~= src);
            assert(map@ =~= dedup_runs_map(src));
        }
        if kept.len() == n {
            return false;
        }
        self.apply_line_block(&blk, &kept, &map);
        true
    }
}

/// Reversing a block twice gives the block back, and the reversed block
/// moves line `i` to the mirrored place.
pub proof fn law_reverse_twice(s: Seq<Seq<char>>)
    ensures
        s.reverse().reverse() == s,
        forall|i: int| 0 <= i < s.len() ==> #[trigger] s.reverse()[s.len() - 1 - i] == s[i],
{
    assert(s.reverse().reverse() =~= s);
}

/// Every line kept when runs are cut is a line of the block.
proof fn lemma_dedup_runs_from(s: Seq<Seq<char>>)
    ensures
        forall|k: int| 0 <= k < dedup_runs(s).len() ==> s.contains(#[trigger] dedup_runs(s)[k]),
        dedup_runs(s).len() <= s.len(),
        s.len() > 0 ==> dedup_runs(s).len() > 0 && dedup_runs(s).last() == s.last(),
    decreases s.len(),
{
    if s.len() > 0 {
        let t = s.drop_last();
        lemma_dedup_runs_from(t);
        let d = dedup_runs(t);
        assert forall|k: int| 0 <= k < dedup_runs(s).len() implies s.contains(#[trigger] dedup_runs(s)[k]) by {
            if k < d.len() {
                assert(t.contains(d[k]));
                let w = choose|w: int| 0 <= w < t.len() && t[w] == d[k];
                assert(s[w] == d[k]);
            } else {
                assert(dedup_runs(s)[k] == s[s.len() - 1]);
            }
        }
        if s.len() >= 2 && s[s.len() - 2] == s.last() {
            assert(d.last() == t.last());
        }
    }
}

/// No line repeats the one right before it.
pub open spec fn no_neighbour_repeats(s: Seq<Seq<char>>) -> bool {
    forall|i: int| 0 < i < s.len() ==> #[trigger] s[i] != s[i - 1]
}

/// Cutting runs of equal neighbouring lines leaves no two equal neighbours,
/// only lines of the block, the block's first and last lines where they
/// were; a block without neighbouring repeats is left as it is, so cutting
/// twice is cutting once.
pub proof fn law_dedup_runs(s: Seq<Seq<char>>)
    ensures
        no_neighbour_repeats(dedup_runs(s)),
        forall|k: int| 0 <= k < dedup_runs(s).len() ==> s.contains(#[trigger] dedup_runs(s)[k]),
        s.len() > 0 ==> dedup_runs(s).len() > 0 && dedup_runs(s)[0] == s[0]
            && dedup_runs(s).last() == s.last(),
        no_neighbour_repeats(s) ==> dedup_runs(s) == s,
        dedup_runs(dedup_runs(s)) == dedup_runs(s),
    decreases s.len(),
{
    lemma_dedup_runs_from(s);
    if s.len() > 0 {
        let t = s.drop_last();
        law_dedup_runs(t);
        let d = dedup_runs(t);
        if !(s.len() >= 2 && s[s.len() - 2] == s.last()) {
            let e = d.push(s.last());
            assert forall|i: int| 0 < i < e.len() implies #[trigger] e[i] != e[i - 1] by {
                if i == e.len() - 1 {
                    if t.len() > 0 {
                        assert(d.last() == t.last());
                        assert(t.last() == s[s.len() - 2]);
                    }
                } else {
                    assert(e[i] == d[i] && e[i - 1] == d[i - 1]);
                }
            }
            if t.len() == 0 {
                assert(e[0] == s[0]);
            } else {
                assert(e[0] == d[0]);
                assert(t[0] == s[0]);
            }
            assert(e.drop_last() =~= d);
            if e.len() >= 2 {
                assert(e[e.len() - 2] == d.last());
                assert(d.last() == t.last());
                assert(e[e.len() - 2] != e.last());
            }
        } else {
            assert(t[0] == s[0]);
        }
        if no_neighbour_repeats(s) {
            assert(no_neighbour_repeats(t)) by {
                assert forall|i: int| 0 < i < t.len() implies #[trigger] t[i] != t[i - 1] by {
                    assert(t[i] == s[i] && t[i - 1] == s[i - 1]);
                }
            }
            if s.len() >= 2 {
                assert(s[s.len() - 1] != s[s.len() - 2]);
            }
            assert(d.push(s.last()) =~= s);
        }
        lemma_no_repeats_fixed(dedup_runs(s));
    }
}

/// A block without neighbouring repeats is its own cut.
proof fn lemma_no_repeats_fixed(s: Seq<Seq<char>>)
    requires
        no_neighbour_repeats(s),
    ensures
        dedup_runs(s) == s,
    decreases s.len(),
{
    if s.len() > 0 {
        let t = s.drop_last();
        assert(no_neighbour_repeats(t)) by {
            assert forall|i: int| 0 < i < t.len() implies #[trigger] t[i] != t[i - 1] by {
                assert(t[i] == s[i] && t[i - 1] == s[i - 1]);
            }
        }
        lemma_no_repeats_fixed(t);
        if s.len() >= 2 {
            assert(s[s.len() - 1] != s[s.len() - 2]);
        }
        assert(t.push(s.last()) =~= s);
    }
}

/// A line trimmed as `mode` says.
pub open spec fn trimmed(s: Seq<char>, mode: TrimMode) -> Seq<char> {
    match mode {
        TrimMode::Leading => trim_start(s),
        TrimMode::Trailing => trim_end(s),
        TrimMode::Both => trim(s),
    }
}

/// Where the leading white space ends, told by the characters.
proof fn lemma_lead_at(s: Seq<char>, k: int)
    requires
        0 <= k <= s.len(),
        forall|j: int| 0 <= j < k ==> spec_is_whitespace(#[trigger] s[j]),
        k < s.len() ==> !spec_is_whitespace(s[k]),
    ensures
        lead_ws(s) == k,
    decreases k,
{
    if k > 0 {
        let d = s.drop_first();
        assert forall|j: int| 0 <= j < k - 1 implies spec_is_whitespace(#[trigger] d[j]) by {
            assert(d[j] == s[j + 1]);
        }
        if k - 1 < d.len() {
            assert(d[k - 1] == s[k]);
        }
        lemma_lead_at(d, k - 1);
        assert(spec_is_whitespace(s[0]));
    }
}

/// Where the trailing white space starts, told by the characters.
proof fn lemma_trail_at(s: Seq<char>, k: int)
    requires
        0 <= k <= s.len(),
        forall|j: int| s.len() - k <= j < s.len() ==> spec_is_whitespace(#[trigger] s[j]),
        k < s.len() ==> !spec_is_whitespace(s[s.len() - k - 1]),
    ensures
        trail_ws(s) == k,
    decreases k,
{
    if k > 0 {
        let d = s.drop_last();
        assert forall|j: int| d.len() - (k - 1) <= j < d.len() implies spec_is_whitespace(#[trigger] d[j]) by {
            assert(d[j] == s[j]);
        }
        if k - 1 < d.len() {
            assert(d[d.len() - (k - 1) - 1] == s[s.len() - k - 1]);
        }
        lemma_trail_at(d, k - 1);
        assert(spec_is_whitespace(s[s.len() - 1]));
    }
}

/// Trimming twice is trimming once: a trimmed line has no white space
/// left at the trimmed end(s).
pub proof fn law_trim_idempotent(s: Seq<char>, mode: TrimMode)
    ensures
        trimmed(trimmed(s, mode), mode) == trimmed(s, mode),
{
    lemma_lead_ws(s);
    let a = trim_start(s);
    lemma_lead_ws(a);
    if a.len() > 0 {
        assert(a[0] == s[lead_ws(s) as int]);
    }
    lemma_lead_at(a, 0);
    assert(a.skip(0) =~= a);
    lemma_trail_ws(s);
    let b = trim_end(s);
    if b.len() > 0 {
        assert(b[b.len() - 1] == s[s.len() - trail_ws(s) - 1]);
    }
    lemma_trail_at(b, 0);
    assert(b.take(b.len() as int) =~= b);
    lemma_trail_ws(a);
    let c = trim_end(a);
    if c.len() > 0 {
        assert(c[c.len() - 1] == a[a.len() - trail_ws(a) - 1]);
        assert(c[0] == a[0]);
    }
    lemma_trail_at(c, 0);
    lemma_lead_at(c, 0);
    assert(c.take(c.len() as int) =~= c);
    assert(c.skip(0) =~= c);
}

/// A map for `n` lines: identity.
pub fn identity_map(n: usize) -> (map: Vec<Option<usize>>)
    ensures
        map@ == id_map(n as nat),
{
    let mut map: Vec<Option<usize>> = Vec::new();
    let mut k: usize = 0;
    while k < n
        invariant
            k <= n,
            map@ == id_map(n as nat).take(k as int),
        decreases n - k,
    {
        map.push(Some(k));
        k = k + 1;
        proof {
            assert(map@ =~= id_map(n as nat).take(k as int));
        }
    }
    proof {
        assert(map@ =~= id_map(n as nat));
    }
    map
}

impl EditorCore {
    /// The bodies of all lines of [`Self::scope`].
    pub open spec fn scope_bodies(&self) -> Seq<Seq<char>> {
        bodies(self.ls(), self.scope().0, self.scope().1)
    }

    /// The lines of [`Self::scope`].
    pub fn scope_lines(&self) -> (r: (usize, usize))
        requires
            self.wf(),
        ensures
            (r.0 as int, r.1 as int) == self.scope(),
            r.0 <= r.1 < self.ls().len(),
    {
        proof {
            self.lemma_touched();
        }
        if self.anchor.is_some() { self.touched_lines() } else { (0, self.doc.line_count() - 1) }
    }

    /// Trims white space (Unicode `White_Space`) from the start, the end or
    /// both ends of the touched lines (every line without a selection),
    /// rebuilding them with the dominant ending; a final line break stays
    /// only when the region is not at the text's end. Returns whether
    /// anything changed; no change leaves everything as it was. Bookmarks
    /// stay.
    pub fn trim_touched_lines(&mut self, mode: TrimMode) -> (r: bool)
        requires
            old(self).wf(),
            old(self).rebuild_fits(old(self).scope().0, old(self).scope().1,
                old(self).scope_bodies().map_values(|s: Seq<char>| trimmed(s, mode)),
                old(self).region_end(old(self).scope().1) < old(self).doc.text().len()),
        ensures
            r == (old(self).scope_bodies().map_values(|s: Seq<char>| trimmed(s, mode)) != old(self).scope_bodies()),
            r ==> old(self).block_rewritten(final(self), old(self).scope().0, old(self).scope().1,
                old(self).scope_bodies().map_values(|s: Seq<char>| trimmed(s, mode)),
                old(self).region_end(old(self).scope().1) < old(self).doc.text().len()),
            r ==> final(self).bookmarks.set() == old(self).bookmarks.set(),
            !r ==> *final(self) == *old(self),
    {
        let (a, b) = self.scope_lines();
        let start = self.doc.line_to_char(a);
        let end = self.region_end_of(b);
        let len = self.doc.text_len();
        let src_lines = self.bodies_of(a, b);
        let ghost src = texts(src_lines@);
        let mut lines: Vec<Vec<char>> = Vec::new();
        let mut changed = false;
        let mut i: usize = 0;
        let (ts, te) = match mode {
            TrimMode::Leading => (true, false),
            TrimMode::Trailing => (false, true),
            TrimMode::Both => (true, true),
        };
        proof {
            assert(texts(lines@) =~= src.take(0));
        }
        while i < src_lines.len()
            invariant
                i <= src_lines@.len(),
                src == texts(src_lines@),
                ts == (mode != TrimMode::Trailing),
                te == (mode != TrimMode::Leading),
                texts(lines@) == src.take(i as int).map_values(|s: Seq<char>| trimmed(s, mode)),
                changed == (texts(lines@) != src.take(i as int)),
            decreases src_lines@.len() - i,
        {
            let line = &src_lines[i];
            assert(line@ == src[i as int]);
            let t = trim_chars(line.as_slice(), ts, te);
            let same = same_chars(t.as_slice(), line.as_slice());
            let ghost prev = texts(lines@);
            let ghost tv = t@;
            lines.push(t);
            proof {
                assert(texts(lines@) =~= prev.push(tv));
                assert(src.take(i + 1) =~= src.take(i as int).push(src[i as int]));
                assert(src.take(i + 1).map_values(|s: Seq<char>| trimmed(s, mode))
                    =~= src.take(i as int).map_values(|s: Seq<char>| trimmed(s, mode)).push(trimmed(src[i as int], mode)));
                if !changed && same {
                    assert(texts(lines@) =~= src.take(i + 1));
                } else if !same {
                    assert(texts(lines@)[i as int] != src.take(i + 1)[i as int]);
                } else {
                    assert(texts(lines@).drop_last() =~= prev);
                    assert(src.take(i + 1).drop_last() =~= src.take(i as int));
                }
            }
            changed = changed || !same;
            i = i + 1;
        }
        proof {
            assert(src.take(i as int) =~= src);
        }
        if !changed {
            return false;
        }
        let n = lines.len();
        assert(texts(lines@).len() == n);
        let count = self.doc.line_count();
        assert(a + n <= count);
        let map = identity_map(n);
        let blk = LineBlock { a, b, start, end, push_nl: end < len, lines: src_lines };
        self.apply_line_block(&blk, &lines, &map);
        proof {
            lemma_id_map_image(old(self).bookmarks.set(), a as int, n as nat);
        }
        true
    }
}

/// Trimming rewrites the lines it works on in place: the document keeps
/// its number of lines, each line of the scope gets its body trimmed, and
/// the lines around the scope stay as they were (see
/// [`EditorCore::trim_touched_lines`]). Left out: a scope right after a
/// lone `\r` break, and a selection ending on the line before the empty
/// line after a final line break, which loses that break.
pub proof fn law_trim_lines_in_place(e: &EditorCore, post: &EditorCore, mode: TrimMode)
    requires
        e.wf(),
        !(e.scope().0 > 0 && e.ls()[e.scope().0 - 1].eol == Eol::Cr),
        !(e.scope().1 + 2 == e.ls().len() && e.ls().last().body.len() == 0),
        e.scope_bodies().map_values(|s: Seq<char>| trimmed(s, mode)) != e.scope_bodies() ==> e.block_rewritten(
            post, e.scope().0, e.scope().1, e.scope_bodies().map_values(|s: Seq<char>| trimmed(s, mode)),
            e.region_end(e.scope().1) < e.doc.text().len()),
        e.scope_bodies().map_values(|s: Seq<char>| trimmed(s, mode)) == e.scope_bodies() ==> *post == *e,
    ensures
        post.ls().len() == e.ls().len(),
        forall|i: int| 0 <= i < e.scope().0 ==> #[trigger] post.ls()[i] == e.ls()[i],
        forall|i: int| e.scope().0 <= i <= e.scope().1 ==> (#[trigger] post.ls()[i]).body == trimmed(e.ls()[i].body, mode),
        forall|i: int| e.scope().1 < i < e.ls().len() ==> #[trigger] post.ls()[i] == e.ls()[i],
{
    reveal(lines_wf);
    e.lemma_touched();
    let ls = e.ls();
    let n = ls.len() as int;
    let (a, b) = e.scope();
    let src = e.scope_bodies();
    let t = src.map_values(|s: Seq<char>| trimmed(s, mode));
    assert(src.len() == b - a + 1 && t.len() == b - a + 1);
    assert forall|i: int| a <= i <= b implies #[trigger] ls[i] == ls[i] && t[i - a] == trimmed(ls[i].body, mode)
        && src[i - a] == ls[i].body by {
        assert(src[i - a] == ls[a + (i - a)].body);
    }
    if t == src {
        assert forall|i: int| a <= i <= b implies (#[trigger] post.ls()[i]).body == trimmed(e.ls()[i].body, mode) by {
            assert(t[i - a] == src[i - a]);
        }
    } else {
        lemma_region_text(ls, a, b);
        lemma_rest_text(ls, b + 1);
        assert(e.doc.lstart(a) == text_of(ls.take(a)).len());
        assert(e.region_end(b) == line_start(ls, b + 1));
        let tx = e.doc.text();
        assert(tx.take(e.doc.lstart(a)) =~= text_of(ls.take(a)));
        assert(tx.skip(e.region_end(b)) =~= text_of(ls.skip(b + 1)));
        assert((e.region_end(b) < tx.len()) == (b < n - 1)) by {
            assert(ls.last() == ls[n - 1]);
        }
        assert forall|j: int| 0 <= j < t.len() implies no_breaks(#[trigger] t[j]) by {
            let bd = ls[a + j].body;
            assert(src[j] == bd);
            assert(no_breaks(bd));
            lemma_lead_ws(bd);
            lemma_trail_ws(bd);
            lemma_lead_ws(trim_start(bd));
            lemma_trail_ws(trim_start(bd));
            let r = trimmed(bd, mode);
            let k: int = match mode {
                TrimMode::Leading => lead_ws(bd) as int,
                TrimMode::Trailing => 0,
                TrimMode::Both => lead_ws(bd) as int,
            };
            assert forall|jj: int| 0 <= jj < r.len() implies !is_break_char(#[trigger] r[jj]) by {
                assert(r[jj] == bd[k + jj]);
            }
        }
        lemma_block_lines(ls, post.ls(), a, b, t, e.doc.ending);
    }
}

/// `s` is a blank line of the given kind.
pub open spec fn is_blank(s: Seq<char>, kind: BlankKind) -> bool {
    match kind {
        BlankKind::Empty => s.len() == 0,
        BlankKind::Whitespace => all_ws(s),
    }
}

/// The lines that are not blank, in order.
pub open spec fn nonblank(s: Seq<Seq<char>>, kind: BlankKind) -> Seq<Seq<char>>
    decreases s.len(),
{
    if s.len() == 0 {
        seq![]
    } else if is_blank(s.last(), kind) {
        nonblank(s.drop_last(), kind)
    } else {
        nonblank(s.drop_last(), kind).push(s.last())
    }
}

/// Where each line goes when blank lines are removed.
pub open spec fn nonblank_map(s: Seq<Seq<char>>, kind: BlankKind) -> Seq<Option<usize>> {
    Seq::new(s.len(), |i: int| if is_blank(s[i], kind) { None } else { Some(nonblank(s.take(i), kind).len() as usize) })
}

/// No more lines are kept than there were.
pub proof fn lemma_nonblank_len(s: Seq<Seq<char>>, kind: BlankKind)
    ensures
        nonblank(s, kind).len() <= s.len(),
    decreases s.len(),
{
    if s.len() > 0 {
        lemma_nonblank_len(s.drop_last(), kind);
    }
}

/// Whether `s` is blank.
fn blank_line(s: &[char], kind: BlankKind) -> (r: bool)
    ensures
        r == is_blank(s@, kind),
{
    match kind {
        BlankKind::Empty => s.len() == 0,
        BlankKind::Whitespace => {
            proof {
                lemma_lead_ws(s@);
            }
            lead_ws_len(s) == s.len()
        },
    }
}

/// Deleting blank lines leaves no blank line, keeps every other line,
/// and a second pass changes nothing.
pub proof fn law_nonblank(s: Seq<Seq<char>>, kind: BlankKind)
    ensures
        forall|i: int| 0 <= i < nonblank(s, kind).len() ==> !is_blank(#[trigger] nonblank(s, kind)[i], kind),
        forall|i: int| 0 <= i < s.len() && !is_blank(#[trigger] s[i], kind) ==> nonblank(s, kind).contains(s[i]),
        nonblank(nonblank(s, kind), kind) == nonblank(s, kind),
    decreases s.len(),
{
    if s.len() > 0 {
        let t = s.drop_last();
        law_nonblank(t, kind);
        let d = nonblank(t, kind);
        assert forall|i: int| 0 <= i < s.len() && !is_blank(#[trigger] s[i], kind) implies nonblank(s, kind).contains(s[i]) by {
            if i < s.len() - 1 {
                assert(t[i] == s[i]);
                assert(d.contains(t[i]));
                let w = choose|w: int| 0 <= w < d.len() && d[w] == t[i];
                if !is_blank(s.last(), kind) {
                    assert(d.push(s.last())[w] == s[i]);
                }
            } else {
                assert(d.push(s.last())[d.len() as int] == s[i]);
            }
        }
        if !is_blank(s.last(), kind) {
            let e = d.push(s.last());
            assert(nonblank(e, kind) == nonblank(d, kind).push(s.last())) by {
                assert(e.drop_last() =~= d);
            }
        }
    }
}

impl EditorCore {
    /// The final line break after blank-line removal: as the block's
    /// region had it, unless nothing is left, when a break is kept only
    /// between text before and after the block.
    pub open spec fn blank_tail(&self, kind: BlankKind) -> bool {
        if nonblank(self.block_bodies(), kind).len() == 0 {
            self.doc.lstart(self.scope().0) > 0 && self.region_end(self.scope().1) < self.doc.text().len()
        } else {
            self.tail_nl(self.scope().0, self.scope().1)
        }
    }

    /// Deletes the empty (or white-space-only) lines of the touched lines
    /// (the whole document without a selection); bookmarks follow the kept
    /// lines, and those below the block move up by the number of lines
    /// removed. Returns whether anything changed; no blank line leaves
    /// everything as it was.
    pub fn delete_empty_lines(&mut self, kind: BlankKind) -> (r: bool)
        requires
            old(self).wf(),
            old(self).doc.text().len() < isize::MAX,
            old(self).rebuild_fits(old(self).scope().0, old(self).scope().1,
                nonblank(old(self).block_bodies(), kind), old(self).blank_tail(kind)),
        ensures
            r == (nonblank(old(self).block_bodies(), kind).len() != old(self).block_bodies().len()),
            r ==> old(self).block_rewritten(final(self), old(self).scope().0, old(self).scope().1,
                nonblank(old(self).block_bodies(), kind), old(self).blank_tail(kind)),
            r ==> final(self).bookmarks.set() == image(image(old(self).bookmarks.set(),
                block_map(old(self).scope().0, nonblank_map(old(self).block_bodies(), kind))),
                shift_clamp_map(old(self).scope().1,
                    nonblank(old(self).block_bodies(), kind).len() - old(self).block_bodies().len())),
            !r ==> *final(self) == *old(self),
    {
        let mut blk = self.collect_line_block();
        let n = blk.lines.len();
        let ghost src = texts(blk.lines@);
        let mut kept: Vec<Vec<char>> = Vec::new();
        let mut map: Vec<Option<usize>> = Vec::new();
        let mut i: usize = 0;
        proof {
            assert(src.take(0) =~= Seq::<Seq<char>>::empty());
            assert(texts(kept@) =~= nonblank(src.take(0), kind));
            assert(map@ =~= nonblank_map(src, kind).take(0));
        }
        while i < n
            invariant
                i <= n == blk.lines@.len(),
                src == texts(blk.lines@),
                texts(kept@) == nonblank(src.take(i as int), kind),
                map@ == nonblank_map(src, kind).take(i as int),
            decreases n - i,
        {
            let line = &blk.lines[i];
            assert(line@ == src[i as int]);
            let blank = blank_line(line.as_slice(), kind);
            proof {
                assert(src.take(i + 1).drop_last() =~= src.take(i as int));
                assert(src.take(i + 1).last() == src[i as int]);
            }
            let ghost pk = texts(kept@);
            if blank {
                map.push(None);
            } else {
                map.push(Some(kept.len()));
                let c = copy_chars(line.as_slice());
                kept.push(c);
                proof {
                    assert(texts(kept@) =~= pk.push(src[i as int]));
                }
            }
            proof {
                assert(map@ =~= nonblank_map(src, kind).take(i + 1));
            }
            i = i + 1;
        }
        proof {
            assert(src.take(n as int) =~= src);
            assert(map@ =~= nonblank_map(src, kind));
            lemma_nonblank_len(src, kind);
        }
        if kept.len() == n {
            return false;
        }
        proof {
            lemma_text_of_len_lines(self.ls());
            lemma_region(self.ls(), blk.a as int, blk.b as int);
        }
        let removed = n - kept.len();
        if kept.len() == 0 {
            let len = self.doc.text_len();
            blk.push_nl = blk.start > 0 && blk.end < len;
        }
        self.apply_line_block(&blk, &kept, &map);
        let marks = shift_bookmarks_below(&self.bookmarks, blk.b, 0 - (removed as isize));
        self.bookmarks = marks;
        true
    }
}

} // verus!
