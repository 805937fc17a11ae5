//! Bookmarks: toggling, navigation, copying and removing the marked lines.

use vstd::prelude::*;
use crate::document::{LineV, lines_wf, line_text, eol_chars, ending_chars, pos_of_offset, push_eol, append_chars,
    newline_chars, text_of, lemma_text_of_push, lemma_text_of_len_lines};
use crate::editor::{EditorCore, CursorPos, push_capped, SnapV};
use crate::lineset::{LineSet, sorted_strict};

verus! {

/// The first mark after line `cur` in the ascending marks `s`.
pub open spec fn first_above(s: Seq<usize>, cur: usize) -> Option<usize>
    decreases s.len(),
{
    if s.len() == 0 { None } else if s[0] > cur { Some(s[0]) } else { first_above(s.drop_first(), cur) }
}

/// The last mark before line `cur` in the ascending marks `s`.
pub open spec fn last_below(s: Seq<usize>, cur: usize) -> Option<usize>
    decreases s.len(),
{
    if s.len() == 0 { None } else if s.last() < cur { Some(s.last()) } else { last_below(s.drop_last(), cur) }
}

/// The next mark after `cur` (`forward`) or before it, wrapping round to
/// the first (last) mark; none without marks.
pub open spec fn next_mark(s: Seq<usize>, cur: usize, forward: bool) -> Option<usize> {
    if s.len() == 0 {
        None
    } else if forward {
        match first_above(s, cur) { Some(x) => Some(x), None => Some(s[0]) }
    } else {
        match last_below(s, cur) { Some(x) => Some(x), None => Some(s.last()) }
    }
}

/// The marks after toggling line `l`: removed when marked, added when not.
pub open spec fn toggled_marks(m: Set<usize>, l: usize) -> Set<usize> {
    if m.contains(l) { m.remove(l) } else { m.insert(l) }
}

/// Toggling a line's bookmark twice leaves the bookmarks as they were.
pub proof fn law_toggle_mark_twice(m: Set<usize>, l: usize)
    ensures
        toggled_marks(toggled_marks(m, l), l) == m,
{
    if m.contains(l) {
        assert(m.remove(l).insert(l) =~= m);
    } else {
        assert(m.insert(l).remove(l) =~= m);
    }
}

/// [`first_above`] finds the nearest mark after `cur`.
proof fn lemma_first_above(s: Seq<usize>, cur: usize)
    requires
        sorted_strict(s),
    ensures
        first_above(s, cur) matches Some(x) ==> s.contains(x) && x > cur && forall|k: int|
            0 <= k < s.len() && #[trigger] s[k] > cur ==> x <= s[k],
        first_above(s, cur) is None ==> forall|k: int| 0 <= k < s.len() ==> #[trigger] s[k] <= cur,
    decreases s.len(),
{
    if s.len() > 0 {
        let d = s.drop_first();
        assert(sorted_strict(d)) by {
            assert forall|i: int, j: int| 0 <= i < j < d.len() implies #[trigger] d[i] < #[trigger] d[j] by {
                assert(d[i] == s[i + 1] && d[j] == s[j + 1]);
            }
        }
        lemma_first_above(d, cur);
        if s[0] > cur {
            assert(s[0] == s[0]);
            assert forall|k: int| 0 <= k < s.len() && #[trigger] s[k] > cur implies s[0] <= s[k] by {
                if k > 0 {
                    assert(s[0] < s[k]);
                }
            }
        } else {
            assert forall|k: int| 0 <= k < s.len() && #[trigger] s[k] > cur implies (first_above(s, cur) matches Some(x) && x <= s[k]) by {
                assert(k > 0);
                assert(d[k - 1] == s[k]);
            }
            if let Some(x) = first_above(d, cur) {
                let w = choose|w: int| 0 <= w < d.len() && d[w] == x;
                assert(s[w + 1] == x);
            }
            assert forall|k: int| 0 <= k < s.len() && first_above(s, cur) is None implies #[trigger] s[k] <= cur by {
                if k > 0 {
                    assert(d[k - 1] == s[k]);
                }
            }
        }
    }
}

/// [`last_below`] finds the nearest mark before `cur`.
proof fn lemma_last_below(s: Seq<usize>, cur: usize)
    requires
        sorted_strict(s),
    ensures
        last_below(s, cur) matches Some(x) ==> s.contains(x) && x < cur && forall|k: int|
            0 <= k < s.len() && #[trigger] s[k] < cur ==> s[k] <= x,
        last_below(s, cur) is None ==> forall|k: int| 0 <= k < s.len() ==> #[trigger] s[k] >= cur,
    decreases s.len(),
{
    if s.len() > 0 {
        let d = s.drop_last();
        assert(sorted_strict(d)) by {
            assert forall|i: int, j: int| 0 <= i < j < d.len() implies #[trigger] d[i] < #[trigger] d[j] by {
                assert(d[i] == s[i] && d[j] == s[j]);
            }
        }
        lemma_last_below(d, cur);
        let n = s.len() - 1;
        if s.last() < cur {
            assert(s[n] == s.last());
            assert forall|k: int| 0 <= k < s.len() && #[trigger] s[k] < cur implies s[k] <= s.last() by {
                if k < n {
                    assert(s[k] < s[n]);
                }
            }
        } else {
            assert forall|k: int| 0 <= k < s.len() && #[trigger] s[k] < cur implies (last_below(s, cur) matches Some(x) && s[k] <= x) by {
                assert(k < n);
                assert(d[k] == s[k]);
            }
            if let Some(x) = last_below(d, cur) {
                let w = choose|w: int| 0 <= w < d.len() && d[w] == x;
                assert(s[w] == x);
            }
            assert forall|k: int| 0 <= k < s.len() && last_below(s, cur) is None implies #[trigger] s[k] >= cur by {
                if k < n {
                    assert(d[k] == s[k]);
                }
            }
        }
    }
}

/// Bookmark navigation lands on a bookmark whenever there is one: forward,
/// on the nearest bookmark after the line, or, when there is none after
/// it, on the first bookmark (wrapping round); backward the same way
/// towards the start.
pub proof fn law_next_mark_nearest(s: Seq<usize>, cur: usize, forward: bool)
    requires
        sorted_strict(s),
        s.len() > 0,
    ensures
        next_mark(s, cur, forward) matches Some(x) && s.contains(x),
        forward && (exists|k: int| 0 <= k < s.len() && #[trigger] s[k] > cur) ==> (next_mark(s, cur, forward)
            matches Some(x) && x > cur && forall|k: int| 0 <= k < s.len() && #[trigger] s[k] > cur ==> x <= s[k]),
        forward && !(exists|k: int| 0 <= k < s.len() && #[trigger] s[k] > cur) ==> next_mark(s, cur, forward) == Some(s[0]),
        !forward && (exists|k: int| 0 <= k < s.len() && #[trigger] s[k] < cur) ==> (next_mark(s, cur, forward)
            matches Some(x) && x < cur && forall|k: int| 0 <= k < s.len() && #[trigger] s[k] < cur ==> s[k] <= x),
        !forward && !(exists|k: int| 0 <= k < s.len() && #[trigger] s[k] < cur) ==> next_mark(s, cur, forward) == Some(s.last()),
{
    lemma_first_above(s, cur);
    lemma_last_below(s, cur);
    assert(s[0] == s[0]);
    assert(s[s.len() - 1] == s.last());
}

/// The bodies of the marked lines that exist, each followed by `nl`.
pub open spec fn marked_text(ls: Seq<LineV>, marks: Seq<usize>, nl: Seq<char>) -> Seq<char>
    decreases marks.len(),
{
    if marks.len() == 0 {
        seq![]
    } else {
        let rest = marked_text(ls, marks.drop_last(), nl);
        let l = marks.last();
        if l < ls.len() { rest + ls[l as int].body + nl } else { rest }
    }
}

/// The text of the lines not in `m`, in order.
pub open spec fn kept_text(ls: Seq<LineV>, m: Set<usize>) -> Seq<char>
    decreases ls.len(),
{
    if ls.len() == 0 {
        seq![]
    } else {
        kept_text(ls.drop_last(), m) + if m.contains((ls.len() - 1) as usize) { seq![] } else { line_text(ls.last()) }
    }
}

/// The only marked line of the last run is the empty line after a final
/// line break: the break before it goes instead.
pub open spec fn phantom_alone(ls: Seq<LineV>, m: Set<usize>) -> bool {
    let n = ls.len();
    n >= 2 && m.contains((n - 1) as usize) && ls[n - 1].body.len() == 0 && !m.contains((n - 2) as usize)
}

/// The text with the lines in `m` removed (see [`phantom_alone`]).
pub open spec fn removed_text(ls: Seq<LineV>, m: Set<usize>) -> Seq<char> {
    let n = ls.len();
    if phantom_alone(ls, m) { kept_text(ls.take(n - 2), m) + ls[n - 2].body } else { kept_text(ls, m) }
}

impl EditorCore {
    /// Whether line `line` carries a bookmark.
    pub fn is_bookmarked(&self, line: usize) -> (r: bool)
        ensures
            r == self.bookmarks.set().contains(line),
    {
        self.bookmarks.contains(line)
    }

    /// The bookmarked lines, ascending.
    pub fn bookmarked_lines(&self) -> (r: Vec<usize>)
        requires
            self.bookmarks.wf(),
        ensures
            r@ == self.bookmarks.items@,
            sorted_strict(r@),
    {
        self.bookmarks.to_vec()
    }

    /// Toggles the bookmark on the cursor's line, as one undo entry; returns
    /// whether the line carries one now.
    pub fn toggle_bookmark(&mut self) -> (r: bool)
        requires
            old(self).wf(),
        ensures
            final(self).wf(),
            r == !old(self).bookmarks.set().contains(old(self).cursor.line),
            final(self).bookmarks.set() == toggled_marks(old(self).bookmarks.set(), old(self).cursor.line),
            final(self).undo_view() == push_capped(old(self).undo_view(), old(self).snap()),
            final(self).redo_view() == Seq::<SnapV>::empty(),
            final(self).typing_run is None,
            final(self).doc == old(self).doc,
            final(self).cursor == old(self).cursor,
            final(self).anchor == old(self).anchor,
            final(self).block_sel == old(self).block_sel,
            final(self).saved_baseline == old(self).saved_baseline,
    {
        self.snapshot();
        let line = self.cursor.line;
        if !self.bookmarks.remove(line) {
            self.bookmarks.insert(line);
            return true;
        }
        false
    }

    /// Clears all bookmarks, as one undo entry; returns whether there were
    /// any (none leaves everything as it was).
    pub fn clear_bookmarks(&mut self) -> (r: bool)
        requires
            old(self).wf(),
        ensures
            final(self).wf(),
            r == (old(self).bookmarks.set() != Set::<usize>::empty()),
            r ==> final(self).bookmarks.set() == Set::<usize>::empty()
                && final(self).undo_view() == push_capped(old(self).undo_view(), old(self).snap())
                && final(self).redo_view() == Seq::<SnapV>::empty()
                && final(self).typing_run is None
                && final(self).doc == old(self).doc
                && final(self).cursor == old(self).cursor
                && final(self).anchor == old(self).anchor,
            !r ==> *final(self) == *old(self),
    {
        if self.bookmarks.is_empty() {
            return false;
        }
        self.snapshot();
        self.bookmarks.clear();
        true
    }

    /// The line of the next bookmark after the cursor's line (`forward`)
    /// or before it, wrapping round (see [`next_mark`]).
    pub fn next_bookmark_line(&self, forward: bool) -> (r: Option<usize>)
        requires
            self.bookmarks.wf(),
        ensures
            r == next_mark(self.bookmarks.items@, self.cursor.line, forward),
    {
        let items = &self.bookmarks.items;
        let n = items.len();
        if n == 0 {
            return None;
        }
        let cur = self.cursor.line;
        if forward {
            let mut i: usize = 0;
            proof {
                assert(items@.skip(0) =~= items@);
            }
            while i < n
                invariant
                    i <= n == items@.len(),
                    items@ == self.bookmarks.items@,
                    cur == self.cursor.line,
                    forward,
                    n > 0,
                    first_above(items@, cur) == first_above(items@.skip(i as int), cur),
                decreases n - i,
            {
                proof {
                    assert(items@.skip(i as int).drop_first() =~= items@.skip(i + 1));
                }
                if items[i] > cur {
                    assert(items@.skip(i as int)[0] == items@[i as int]);
                    assert(items@.skip(i as int).len() > 0);
                    assert(first_above(items@.skip(i as int), cur) == Some(items@[i as int]));
                    assert(self.bookmarks.items@ == items@);
                    return Some(items[i]);
                }
                i = i + 1;
            }
            proof {
                assert(items@.skip(i as int) =~= Seq::<usize>::empty());
            }
            Some(items[0])
        } else {
            let mut j: usize = n;
            proof {
                assert(items@.take(n as int) =~= items@);
            }
            while j > 0
                invariant
                    j <= n == items@.len(),
                    items@ == self.bookmarks.items@,
                    cur == self.cursor.line,
                    !forward,
                    n > 0,
                    last_below(items@, cur) == last_below(items@.take(j as int), cur),
                decreases j,
            {
                proof {
                    assert(items@.take(j as int).drop_last() =~= items@.take(j - 1));
                }
                if items[j - 1] < cur {
                    assert(items@.take(j as int).last() == items@[j - 1]);
                    assert(items@.take(j as int).len() > 0);
                    assert(last_below(items@.take(j as int), cur) == Some(items@[j - 1]));
                    return Some(items[j - 1]);
                }
                j = j - 1;
            }
            Some(items[n - 1])
        }
    }

    /// Moves the cursor to the start of the next (`forward`) or previous
    /// bookmarked line, wrapping round; drops the selection and ends the
    /// typing run. Returns whether the cursor moved: no bookmark, one on
    /// the cursor's own line, or one past the last line leaves everything
    /// as it was.
    pub fn next_bookmark(&mut self, forward: bool) -> (r: bool)
        requires
            old(self).wf(),
        ensures
            final(self).wf(),
            r == (next_mark(old(self).bookmarks.items@, old(self).cursor.line, forward) matches Some(t)
                && t != old(self).cursor.line && t < old(self).ls().len()),
            r ==> final(self).cursor == (CursorPos {
                line: next_mark(old(self).bookmarks.items@, old(self).cursor.line, forward).unwrap(), col: 0 })
                && final(self).anchor is None && final(self).typing_run is None
                && final(self).doc == old(self).doc && final(self).bookmarks == old(self).bookmarks
                && final(self).undo_stack == old(self).undo_stack && final(self).redo_stack == old(self).redo_stack,
            !r ==> *final(self) == *old(self),
    {
        let target = match self.next_bookmark_line(forward) {
            Some(t) => t,
            None => return false,
        };
        if target == self.cursor.line || target >= self.doc.line_count() {
            return false;
        }
        self.break_typing();
        self.anchor = None;
        self.cursor = CursorPos { line: target, col: 0 };
        true
    }

    /// The bodies of the bookmarked lines, ascending, each followed by the
    /// dominant line ending; none without bookmarks (or when no marked line
    /// exists). Nothing changes.
    pub fn copy_bookmarked_lines(&self) -> (r: Option<String>)
        requires
            self.wf(),
        ensures
            ({
                let t = marked_text(self.ls(), self.bookmarks.items@, ending_chars(self.doc.ending));
                if t.len() > 0 { r matches Some(s) && s@ == t } else { r is None }
            }),
    {
        let nl = newline_chars(self.doc.ending);
        let n = self.doc.line_count();
        let items = &self.bookmarks.items;
        let mut out: Vec<char> = Vec::new();
        let mut i: usize = 0;
        proof {
            assert(items@.take(0) =~= Seq::<usize>::empty());
        }
        while i < items.len()
            invariant
                i <= items@.len(),
                n == self.ls().len(),
                nl@ == ending_chars(self.doc.ending),
                out@ == marked_text(self.ls(), items@.take(i as int), nl@),
            decreases items@.len() - i,
        {
            let l = items[i];
            proof {
                assert(items@.take(i + 1).drop_last() =~= items@.take(i as int));
                assert(items@.take(i + 1).last() == l);
            }
            if l < n {
                let body = self.doc.body_chars(l);
                append_chars(&mut out, body.as_slice());
                append_chars(&mut out, nl.as_slice());
            }
            i = i + 1;
        }
        proof {
            assert(items@.take(i as int) =~= items@);
        }
        if out.len() == 0 {
            None
        } else {
            Some(crate::strs::string_of(out.as_slice()))
        }
    }
}

/// Removing lines never lengthens the text.
pub proof fn lemma_kept_len(ls: Seq<LineV>, m: Set<usize>)
    ensures
        kept_text(ls, m).len() <= text_of(ls).len(),
    decreases ls.len(),
{
    if ls.len() > 0 {
        lemma_kept_len(ls.drop_last(), m);
        lemma_text_of_push(ls.drop_last(), ls.last());
        assert(ls.drop_last().push(ls.last()) =~= ls);
    }
}

/// Where the cursor goes after removing the marked lines: where the first
/// removed part started.
pub open spec fn first_cut(ls: Seq<LineV>, m: Set<usize>, l0: int) -> int {
    let n = ls.len();
    if phantom_alone(ls, m) && l0 == n - 1 {
        crate::document::line_start(ls, n - 2) + ls[n - 2].body.len()
    } else {
        crate::document::line_start(ls, l0)
    }
}

impl EditorCore {
    /// Some marked line exists and the text is not empty.
    pub open spec fn rm_applies(&self) -> bool {
        &&& exists|l: usize| self.bookmarks.set().contains(l) && l < self.ls().len()
        &&& self.doc.text().len() > 0
    }

    /// Removes every bookmarked line with its break (for the empty line
    /// after a final line break, the break before it), as one undo entry;
    /// bookmarks past the last line are ignored. The cursor goes to where
    /// the first removed line was, all bookmarks are cleared. Returns
    /// whether anything was removed; nothing to remove leaves everything as
    /// it was.
    pub fn remove_bookmarked_lines(&mut self) -> (r: bool)
        requires
            old(self).wf(),
        ensures
            r == old(self).rm_applies(),
            r ==> old(self).replaced(final(self), 0, old(self).doc.text().len() as int,
                removed_text(old(self).ls(), old(self).bookmarks.set())),
            r ==> (final(self).cursor.line as int, final(self).cursor.col as int) == pos_of_offset(final(self).ls(), {
                let c = first_cut(old(self).ls(), old(self).bookmarks.set(), old(self).bookmarks.items@[0] as int);
                if c <= final(self).doc.text().len() { c } else { final(self).doc.text().len() as int } }),
            r ==> final(self).bookmarks.set() == Set::<usize>::empty(),
            !r ==> *final(self) == *old(self),
    {
        let n = self.doc.line_count();
        let len = self.doc.text_len();
        let ghost m = self.bookmarks.set();
        let ghost ls = self.ls();
        proof {
            reveal(lines_wf);
            if self.rm_applies() {
                let l = choose|l: usize| self.bookmarks.set().contains(l) && l < self.ls().len();
                let k = choose|k: int| 0 <= k < self.bookmarks.items@.len() && self.bookmarks.items@[k] == l;
                if k > 0 {
                    assert(self.bookmarks.items@[0] < self.bookmarks.items@[k]);
                }
            }
            if self.bookmarks.items@.len() > 0 {
                assert(self.bookmarks.set().contains(self.bookmarks.items@[0]));
            }
        }
        if self.bookmarks.items.len() == 0 || self.bookmarks.items[0] >= n || len == 0 {
            return false;
        }
        let l0 = self.bookmarks.items[0];
        let phantom = n >= 2 && self.bookmarks.contains(n - 1) && self.doc.body_len(n - 1) == 0
            && !self.bookmarks.contains(n - 2);
        let upto = if phantom { n - 2 } else { n };
        let mut out: Vec<char> = Vec::new();
        let mut l: usize = 0;
        proof {
            assert(ls.take(0) =~= Seq::<LineV>::empty());
        }
        while l < upto
            invariant
                l <= upto <= n == ls.len(),
                ls == self.ls(),
                m == self.bookmarks.set(),
                out@ == kept_text(ls.take(l as int), m),
            decreases upto - l,
        {
            proof {
                assert(ls.take(l + 1).drop_last() =~= ls.take(l as int));
                assert(ls.take(l + 1).last() == ls[l as int]);
            }
            if !self.bookmarks.contains(l) {
                let body = self.doc.body_chars(l);
                append_chars(&mut out, body.as_slice());
                push_eol(&mut out, self.doc.eol_of(l));
                proof {
                    assert(out@ =~= kept_text(ls.take(l as int), m) + line_text(ls[l as int]));
                }
            } else {
                assert(out@ =~= kept_text(ls.take(l as int), m) + Seq::<char>::empty());
            }
            l = l + 1;
        }
        if phantom {
            let body = self.doc.body_chars(n - 2);
            append_chars(&mut out, body.as_slice());
        }
        proof {
            assert(ls.take(n as int) =~= ls);
            assert(out@ == removed_text(ls, m));
            lemma_kept_len(ls, m);
            if phantom {
                lemma_kept_len(ls.take(n - 2), m);
                crate::document::lemma_line_start_mono(ls, n - 2, n - 2);
                crate::document::lemma_line_in_text(ls, n - 2);
                assert(text_of(ls.take(n - 2)).len() == crate::document::line_start(ls, n - 2));
            }
        }
        let cut = if phantom && l0 == n - 1 {
            proof {
                crate::document::lemma_line_in_text(ls, n - 2);
            }
            self.doc.line_to_char(n - 2) + self.doc.body_len(n - 2)
        } else {
            self.doc.line_to_char(l0)
        };
        self.snapshot();
        self.doc.replace_range(0, len, out.as_slice());
        let len2 = self.doc.text_len();
        let at = if cut <= len2 { cut } else { len2 };
        let (cl, cc) = self.doc.char_to_pos(at);
        self.cursor = CursorPos { line: cl, col: cc };
        self.anchor = None;
        self.bookmarks.clear();
        proof {
            assert(self.doc.text() =~= old(self).doc.text().take(0) + out@ + old(self).doc.text().skip(len as int));
        }
        true
    }
}

} // verus!
