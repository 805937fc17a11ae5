//! Editing at every cursor at once: the same insertion, backspace or
//! forward delete at the main cursor and at each extra cursor, applied from
//! the end of the text backwards as one undo step.

use vstd::prelude::*;
use crate::cursors::{dedup_of, extras_on, sorted_dedup, lemma_dedup_on};
use crate::document::{LineV, line_start, line_of_offset, pos_of_offset, text_of, normalize_eol, normalize_chars, lemma_normalize_len, lemma_pos_round_trip, lines_wf};
use crate::editor::{CursorPos, EditorCore, ExtraCursor, pos_in, pos_le, SnapV, push_capped, edit_frame};
use crate::lineset::image;
use crate::marks::{shift_map, remap_shift_below};
use crate::metrics::{spec_break_count, measure_chars, lemma_break_count_bound};
use crate::strs::chars_of;

verus! {

/// What to do at every cursor.
#[derive(Clone, Copy)]
pub enum MultiEditKind<'a> {
    /// Insert this text (replacing the cursor's selection, if any).
    Insert(&'a str),
    /// Delete the selection, or the character before the cursor.
    Backspace,
    /// Delete the selection, or the character after the cursor.
    Delete,
}

/// 0 for an insertion, 1 for a backspace, 2 for a forward delete.
pub open spec fn kind_code(k: MultiEditKind) -> int {
    match k {
        MultiEditKind::Insert(_) => 0,
        MultiEditKind::Backspace => 1,
        MultiEditKind::Delete => 2,
    }
}

/// The text an insertion carries (empty for the deletions).
pub open spec fn kind_text(k: MultiEditKind) -> Seq<char> {
    match k {
        MultiEditKind::Insert(t) => t@,
        _ => seq![],
    }
}

/// Offset of a position.
pub open spec fn off_at(ls: Seq<LineV>, p: CursorPos) -> int {
    line_start(ls, p.line as int) + p.col
}

/// The non-empty selection from `anchor` to `c`, as offsets.
pub open spec fn sel_span(ls: Seq<LineV>, anchor: Option<CursorPos>, c: CursorPos) -> Option<(int, int)> {
    match anchor {
        None => None,
        Some(a) => {
            let s = if pos_le(a, c) { off_at(ls, a) } else { off_at(ls, c) };
            let e = if pos_le(a, c) { off_at(ls, c) } else { off_at(ls, a) };
            if s < e { Some((s, e)) } else { None }
        },
    }
}

/// The range a cursor edits (`None`: the edit cannot be done at this
/// cursor). A selection is replaced; otherwise an insertion goes at the
/// cursor, a backspace takes the character before it and a delete the one
/// after it. At the start of a line a backspace cannot be done, except by
/// the main cursor at the start of the text, where it does nothing; at the
/// end of a line a delete cannot be done, except at the end of the text,
/// where it does nothing.
pub open spec fn cursor_plan(ls: Seq<LineV>, kind: int, anchor: Option<CursorPos>, c: CursorPos, main: bool) -> Option<(int, int)> {
    let o = off_at(ls, c);
    match sel_span(ls, anchor, c) {
        Some(r) => Some(r),
        None => if kind == 0 {
            Some((o, o))
        } else if kind == 1 {
            if c.col > 0 {
                Some((o - 1, o))
            } else if main && c.line == 0 {
                Some((o, o))
            } else {
                None
            }
        } else {
            if c.col < ls[c.line as int].body.len() {
                Some((o, o + 1))
            } else if o >= text_of(ls).len() {
                Some((o, o))
            } else {
                None
            }
        },
    }
}

/// The characters of `[s, e)` are not all on one line.
pub open spec fn crosses(ls: Seq<LineV>, s: int, e: int) -> bool {
    s < e && line_of_offset(ls, s) != line_of_offset(ls, e - 1)
}

/// The plans of all cursors: the main one first, then the extra ones in
/// order.
pub open spec fn plan_list(ls: Seq<LineV>, kind: int, anchor: Option<CursorPos>, c: CursorPos, xs: Seq<ExtraCursor>) -> Seq<Option<(int, int)>> {
    seq![cursor_plan(ls, kind, anchor, c, true)] + Seq::new(
        xs.len(),
        |i: int| cursor_plan(ls, kind, xs[i].anchor, xs[i].cursor, false),
    )
}

/// Some cursor cannot do its edit, or its range spans lines.
pub open spec fn blocked(ls: Seq<LineV>, plans: Seq<Option<(int, int)>>) -> bool {
    exists|k: int|
        0 <= k < plans.len() && (#[trigger] plans[k] is None || crosses(ls, plans[k].unwrap().0, plans[k].unwrap().1))
}

/// The planned edits as (start, end, owner): owner 0 is the main cursor,
/// owner `i + 1` the extra cursor `i`.
pub open spec fn edits_of(plans: Seq<Option<(int, int)>>) -> Seq<(usize, usize, usize)> {
    Seq::new(plans.len(), |k: int| (plans[k].unwrap().0 as usize, plans[k].unwrap().1 as usize, k as usize))
}

/// The order in which edits are laid out: by start, then end; among equal
/// ranges the later owner first.
pub open spec fn ekey_lt(a: (usize, usize, usize), b: (usize, usize, usize)) -> bool {
    a.0 < b.0 || (a.0 == b.0 && (a.1 < b.1 || (a.1 == b.1 && a.2 > b.2)))
}

/// `a`'s range comes at or before `b`'s (by start, then end).
pub open spec fn span_le(a: (usize, usize, usize), b: (usize, usize, usize)) -> bool {
    a.0 < b.0 || (a.0 == b.0 && a.1 <= b.1)
}

/// Two edits, `a`'s range at or before `b`'s, get in each other's way:
/// they overlap, or they start together and `a` deletes something.
pub open spec fn clash(a: (usize, usize, usize), b: (usize, usize, usize)) -> bool {
    a.1 > b.0 || (a.0 == b.0 && a.1 > a.0)
}

/// Some two edits get in each other's way.
pub open spec fn conflicting(es: Seq<(usize, usize, usize)>) -> bool {
    exists|i: int, j: int|
        0 <= i < es.len() && 0 <= j < es.len() && i != j && span_le(#[trigger] es[i], #[trigger] es[j]) && clash(es[i], es[j])
}

/// `o` holds the edits of `es` in layout order.
pub open spec fn is_order_of(o: Seq<(usize, usize, usize)>, es: Seq<(usize, usize, usize)>) -> bool {
    &&& o.len() == es.len()
    &&& forall|i: int, j: int| 0 <= i < j < o.len() ==> ekey_lt(#[trigger] o[i], #[trigger] o[j])
    &&& forall|k: int| 0 <= k < o.len() ==> es.contains(#[trigger] o[k])
    &&& forall|i: int| 0 <= i < es.len() ==> o.contains(#[trigger] es[i])
}

/// Where the untouched text after edit `i` ends: at the next edit's start,
/// or at the end of the text.
pub open spec fn gap_end(t: Seq<char>, o: Seq<(usize, usize, usize)>, i: int) -> int {
    if i + 1 < o.len() { o[i + 1].0 as int } else { t.len() as int }
}

/// The text from edit `i` on: its payload, the untouched text up to the
/// next edit, and so on.
pub open spec fn edit_tail(t: Seq<char>, o: Seq<(usize, usize, usize)>, p: Seq<char>, i: int) -> Seq<char>
    decreases o.len() - i,
{
    if i < 0 || i >= o.len() {
        seq![]
    } else {
        p + t.subrange(o[i].1 as int, gap_end(t, o, i)) + edit_tail(t, o, p, i + 1)
    }
}

/// The text once the edits from `k` on are done.
pub open spec fn partial_text(t: Seq<char>, o: Seq<(usize, usize, usize)>, p: Seq<char>, k: int) -> Seq<char> {
    if k >= o.len() { t } else { t.take(o[k].0 as int) + edit_tail(t, o, p, k) }
}

/// The text once every edit is done: each range of `o` replaced by `p`.
pub open spec fn multi_text(t: Seq<char>, o: Seq<(usize, usize, usize)>, p: Seq<char>) -> Seq<char> {
    partial_text(t, o, p, 0)
}

/// How far the edits before edit `k` move the text after them.
pub open spec fn shift_before(o: Seq<(usize, usize, usize)>, plen: int, k: int) -> int
    decreases k,
{
    if k <= 0 { 0 } else { shift_before(o, plen, k - 1) + plen - (o[k - 1].1 - o[k - 1].0) }
}

/// Where the cursor of edit `k` lands: right after its payload in the new
/// text.
pub open spec fn landing(o: Seq<(usize, usize, usize)>, plen: int, k: int) -> int {
    o[k].0 + shift_before(o, plen, k) + plen
}

/// The place of owner `w`'s edit in `o`.
pub open spec fn idx_of(o: Seq<(usize, usize, usize)>, w: int) -> int {
    choose|k: int| 0 <= k < o.len() && o[k].2 == w
}

/// The position of an offset, as a cursor.
pub open spec fn pos_at(ls: Seq<LineV>, off: int) -> CursorPos {
    CursorPos { line: pos_of_offset(ls, off).0 as usize, col: pos_of_offset(ls, off).1 as usize }
}

/// Bookmarks after inserting `d` line breaks at each of the lines
/// `lines`, the last one first: each time the marks below the line move
/// down by `d`.
pub open spec fn shift_marks(s: Set<usize>, lines: Seq<int>, d: int) -> Set<usize>
    decreases lines.len(),
{
    if lines.len() == 0 {
        s
    } else {
        shift_marks(image(s, shift_map(lines.last(), d)), lines.drop_last(), d)
    }
}

impl EditorCore {
    /// The payload of an edit: the inserted text with its line breaks
    /// turned into the document's, nothing for the deletions.
    pub open spec fn payload(&self, kind: MultiEditKind) -> Seq<char> {
        if kind is Insert { normalize_eol(kind_text(kind), self.doc.ending) } else { Seq::<char>::empty() }
    }

    /// What [`EditorCore::multi_edit`] answers and leaves behind.
    pub open spec fn multi_edit_result(&self, post: &EditorCore, kind: MultiEditKind, r: Option<bool>) -> bool {
        let p = self.payload(kind);
        let plans = self.multi_plans(kind_code(kind));
        let es = edits_of(plans);
        let many = self.extra_cursors@.len() > 0;
        let empty_ins = kind is Insert && p.len() == 0;
        let stop = blocked(self.ls(), plans) || conflicting(es);
        let idle = p.len() == 0 && forall|k: int| 0 <= k < es.len() ==> (#[trigger] es[k]).0 == es[k].1;
        &&& !many ==> r is None && *post == *self
        &&& many && empty_ins ==> r == Some(false) && *post == *self
        &&& many && !empty_ins && stop ==> r is None && post.extra_cursors@.len() == 0
            && *post == (EditorCore { extra_cursors: post.extra_cursors, ..*self })
        &&& many && !empty_ins && !stop && idle ==> r == Some(false) && *post == *self
        &&& many && !empty_ins && !stop && !idle ==> r == Some(true)
            && (exists|o: Seq<(usize, usize, usize)>| is_order_of(o, es) && #[trigger] self.multi_done(post, o, p))
            && post.undo_view() == push_capped(self.undo_view(), self.snap())
            && post.redo_view() == Seq::<SnapV>::empty()
            && post.typing_run is None
            && post.block_sel == self.block_sel
            && post.saved_baseline == self.saved_baseline
            && edit_frame(self, post)
    }

    /// The plans of all cursors for an edit of kind `kind`.
    pub open spec fn multi_plans(&self, kind: int) -> Seq<Option<(int, int)>> {
        plan_list(self.ls(), kind, self.anchor, self.cursor, self.extra_cursors@)
    }

    /// `post` is this editor after the edits of kind `kind` with payload
    /// `p` were done at every cursor, in the layout order `o`.
    #[verifier::opaque]
    pub open spec fn multi_done(&self, post: &EditorCore, o: Seq<(usize, usize, usize)>, p: Seq<char>) -> bool {
        &&& post.doc.text() == multi_text(self.doc.text(), o, p)
        &&& post.doc.ending == self.doc.ending
        &&& post.cursor == pos_at(post.ls(), landing(o, p.len() as int, idx_of(o, 0)))
        &&& post.anchor is None
        &&& dedup_of(
            post.extra_cursors@,
            Seq::new(
                self.extra_cursors@.len(),
                |i: int| ExtraCursor { cursor: pos_at(post.ls(), landing(o, p.len() as int, idx_of(o, i + 1))), anchor: None },
            ),
        )
        &&& (spec_break_count(p) == 0 ==> post.bookmarks == self.bookmarks)
        &&& (spec_break_count(p) > 0 ==> post.bookmarks.set() == shift_marks(
            self.bookmarks.set(),
            Seq::new(o.len(), |k: int| line_of_offset(self.ls(), o[k].0 as int)),
            spec_break_count(p) as int,
        ))
    }
}

/// `pos_le` for exec code.
fn pos_at_or_before(a: CursorPos, b: CursorPos) -> (r: bool)
    ensures
        r == pos_le(a, b),
{
    a.line < b.line || (a.line == b.line && a.col <= b.col)
}

impl EditorCore {
    /// The non-empty selection from `anchor` to `c` (see [`sel_span`]).
    pub(crate) fn sel_span_exec(&self, anchor: Option<CursorPos>, c: CursorPos) -> (r: Option<(usize, usize)>)
        requires
            self.wf(),
            pos_in(self.ls(), c),
            anchor matches Some(a) ==> pos_in(self.ls(), a),
        ensures
            match r {
                None => sel_span(self.ls(), anchor, c) is None,
                Some((s, e)) => sel_span(self.ls(), anchor, c) == Some((s as int, e as int)) && s < e <= self.doc.text().len(),
            },
    {
        match anchor {
            None => None,
            Some(a) => {
                proof {
                    lemma_pos_round_trip(self.ls(), a.line as int, a.col as int);
                    lemma_pos_round_trip(self.ls(), c.line as int, c.col as int);
                }
                let before = pos_at_or_before(a, c);
                let s = if before { self.offset_of_pos(a) } else { self.offset_of_pos(c) };
                let e = if before { self.offset_of_pos(c) } else { self.offset_of_pos(a) };
                if s < e { Some((s, e)) } else { None }
            },
        }
    }

    /// The plan of one cursor (see [`cursor_plan`]).
    fn cursor_plan_exec(&self, kind: u8, anchor: Option<CursorPos>, c: CursorPos, main: bool) -> (r: Option<(usize, usize)>)
        requires
            self.wf(),
            kind <= 2,
            pos_in(self.ls(), c),
            anchor matches Some(a) ==> pos_in(self.ls(), a),
        ensures
            r is None <==> cursor_plan(self.ls(), kind as int, anchor, c, main) is None,
            r matches Some((s, e)) ==> cursor_plan(self.ls(), kind as int, anchor, c, main) == Some((s as int, e as int))
                && s <= e <= self.doc.text().len(),
    {
        proof {
            lemma_pos_round_trip(self.ls(), c.line as int, c.col as int);
        }
        let o = self.offset_of_pos(c);
        if let Some(a) = anchor {
            proof {
                lemma_pos_round_trip(self.ls(), a.line as int, a.col as int);
            }
            let before = pos_at_or_before(a, c);
            let s = if before { self.offset_of_pos(a) } else { o };
            let e = if before { o } else { self.offset_of_pos(a) };
            if s < e {
                return Some((s, e));
            }
        }
        if kind == 0 {
            Some((o, o))
        } else if kind == 1 {
            if c.col > 0 {
                Some((o - 1, o))
            } else if main && c.line == 0 {
                Some((o, o))
            } else {
                None
            }
        } else {
            if c.col < self.doc.body_len(c.line) {
                proof {
                    lemma_pos_round_trip(self.ls(), c.line as int, c.col + 1);
                }
                Some((o, o + 1))
            } else if o >= self.doc.text_len() {
                Some((o, o))
            } else {
                None
            }
        }
    }

    /// Whether `[s, e)` spans lines (see [`crosses`]).
    fn crosses_exec(&self, s: usize, e: usize) -> (r: bool)
        requires
            self.wf(),
        ensures
            r == crosses(self.ls(), s as int, e as int),
    {
        if s < e {
            let (a, _) = self.doc.char_to_pos(s);
            let (b, _) = self.doc.char_to_pos(e - 1);
            a != b
        } else {
            false
        }
    }
}

/// Puts an edit into a list kept in layout order.
fn insert_edit(v: &mut Vec<(usize, usize, usize)>, x: (usize, usize, usize))
    requires
        forall|a: int, b: int| 0 <= a < b < old(v)@.len() ==> ekey_lt(#[trigger] old(v)@[a], #[trigger] old(v)@[b]),
        forall|k: int| 0 <= k < old(v)@.len() ==> (#[trigger] old(v)@[k]).2 != x.2,
    ensures
        forall|a: int, b: int| 0 <= a < b < final(v)@.len() ==> ekey_lt(#[trigger] final(v)@[a], #[trigger] final(v)@[b]),
        final(v)@.len() == old(v)@.len() + 1,
        final(v)@.contains(x),
        forall|y: (usize, usize, usize)| old(v)@.contains(y) ==> final(v)@.contains(y),
        forall|y: (usize, usize, usize)| final(v)@.contains(y) ==> old(v)@.contains(y) || y == x,
{
    let ghost o = v@;
    let mut j: usize = 0;
    while j < v.len() && (v[j].0 < x.0 || (v[j].0 == x.0 && (v[j].1 < x.1 || (v[j].1 == x.1 && v[j].2 > x.2))))
        invariant
            v@ == o,
            j <= v@.len(),
            forall|k: int| 0 <= k < j ==> ekey_lt(#[trigger] v@[k], x),
        decreases v@.len() - j,
    {
        j = j + 1;
    }
    v.insert(j, x);
    proof {
        if j < o.len() {
            assert(!ekey_lt(o[j as int], x));
            assert(o[j as int].2 != x.2);
            assert(ekey_lt(x, o[j as int]));
        }
        assert forall|q: int| j < q < v@.len() implies ekey_lt(x, #[trigger] v@[q]) by {
            assert(v@[q] == o[q - 1]);
            if q - 1 > j {
                assert(ekey_lt(o[j as int], o[q - 1]));
            }
        }
        assert forall|a: int, b: int| 0 <= a < b < v@.len() implies ekey_lt(#[trigger] v@[a], #[trigger] v@[b]) by {
            if b < j {
                assert(v@[a] == o[a] && v@[b] == o[b]);
            } else if b == j {
                assert(v@[a] == o[a]);
            } else if a == j {
            } else if a < j {
                assert(v@[a] == o[a]);
                assert(ekey_lt(x, v@[b]));
            } else {
                assert(v@[a] == o[a - 1] && v@[b] == o[b - 1]);
            }
        }
        assert(v@[j as int] == x);
        assert forall|y: (usize, usize, usize)| o.contains(y) implies v@.contains(y) by {
            let w = choose|w: int| 0 <= w < o.len() && o[w] == y;
            if w < j {
                assert(v@[w] == y);
            } else {
                assert(v@[w + 1] == y);
            }
        }
        assert forall|y: (usize, usize, usize)| v@.contains(y) implies o.contains(y) || y == x by {
            let w = choose|w: int| 0 <= w < v@.len() && v@[w] == y;
            if w < j {
                assert(o[w] == y);
            } else if w > j {
                assert(o[w - 1] == y);
            }
        }
    }
}

/// The edits in layout order.
fn order_edits(es: &Vec<(usize, usize, usize)>) -> (o: Vec<(usize, usize, usize)>)
    requires
        forall|k: int| 0 <= k < es@.len() ==> (#[trigger] es@[k]).2 == k,
    ensures
        is_order_of(o@, es@),
{
    let mut o: Vec<(usize, usize, usize)> = Vec::new();
    let mut i: usize = 0;
    while i < es.len()
        invariant
            i <= es@.len(),
            forall|k: int| 0 <= k < es@.len() ==> (#[trigger] es@[k]).2 == k,
            o@.len() == i,
            forall|a: int, b: int| 0 <= a < b < o@.len() ==> ekey_lt(#[trigger] o@[a], #[trigger] o@[b]),
            forall|y: (usize, usize, usize)| o@.contains(y) ==> exists|q: int| 0 <= q < i && es@[q] == y,
            forall|q: int| 0 <= q < i ==> o@.contains(#[trigger] es@[q]),
        decreases es@.len() - i,
    {
        let ghost before = o@;
        let x = es[i];
        proof {
            assert forall|k: int| 0 <= k < o@.len() implies (#[trigger] o@[k]).2 != x.2 by {
                assert(o@.contains(o@[k]));
                let q = choose|q: int| 0 <= q < i && es@[q] == o@[k];
                assert(es@[q].2 == q);
            }
        }
        insert_edit(&mut o, x);
        proof {
            assert forall|y: (usize, usize, usize)| o@.contains(y) implies exists|q: int| 0 <= q < i + 1 && es@[q] == y by {
                if y == x {
                    assert(es@[i as int] == y);
                } else {
                    assert(before.contains(y));
                    let q = choose|q: int| 0 <= q < i && es@[q] == y;
                    assert(es@[q] == y);
                }
            }
            assert forall|q: int| 0 <= q < i + 1 implies o@.contains(#[trigger] es@[q]) by {
                if q < i {
                    assert(before.contains(es@[q]));
                }
            }
        }
        i = i + 1;
    }
    proof {
        assert forall|k: int| 0 <= k < o@.len() implies es@.contains(#[trigger] o@[k]) by {
            assert(o@.contains(o@[k]));
            let q = choose|q: int| 0 <= q < i && es@[q] == o@[k];
            assert(es@[q] == o@[k]);
        }
    }
    o
}

/// Two neighbours of the ordered list clash.
pub open spec fn adjacent_clash(o: Seq<(usize, usize, usize)>) -> bool {
    exists|k: int| 0 <= k < o.len() - 1 && clash(#[trigger] o[k], o[k + 1])
}

/// In layout order, a clash anywhere shows between neighbours.
proof fn lemma_clash_adjacent(o: Seq<(usize, usize, usize)>, es: Seq<(usize, usize, usize)>)
    requires
        is_order_of(o, es),
        forall|k: int| 0 <= k < es.len() ==> (#[trigger] es[k]).2 == k,
    ensures
        conflicting(es) <==> adjacent_clash(o),
{
    if adjacent_clash(o) {
        let k = choose|k: int| 0 <= k < o.len() - 1 && clash(#[trigger] o[k], o[k + 1]);
        assert(es.contains(o[k]));
        assert(es.contains(o[k + 1]));
        let i = choose|i: int| 0 <= i < es.len() && es[i] == o[k];
        let j = choose|j: int| 0 <= j < es.len() && es[j] == o[k + 1];
        assert(ekey_lt(o[k], o[k + 1]));
        assert(span_le(es[i], es[j]) && clash(es[i], es[j]));
    }
    if conflicting(es) {
        let (i, j) = choose|i: int, j: int|
            0 <= i < es.len() && 0 <= j < es.len() && i != j && span_le(#[trigger] es[i], #[trigger] es[j]) && clash(es[i], es[j]);
        assert(o.contains(es[i]));
        assert(o.contains(es[j]));
        let a = choose|a: int| 0 <= a < o.len() && o[a] == es[i];
        let b = choose|b: int| 0 <= b < o.len() && o[b] == es[j];
        assert(es[i].2 == i && es[j].2 == j);
        assert(a != b);
        if a < b {
            assert(ekey_lt(o[a], o[a + 1]));
            if a + 1 < b {
                assert(ekey_lt(o[a + 1], o[b]));
            }
            assert(clash(o[a], o[a + 1]));
        } else {
            assert(ekey_lt(o[b], o[b + 1]));
            if b + 1 < a {
                assert(ekey_lt(o[b + 1], o[a]));
            }
            assert(clash(o[b], o[b + 1]));
        }
    }
}

/// Whether two neighbours of the ordered list clash.
fn find_clash(o: &Vec<(usize, usize, usize)>) -> (r: bool)
    ensures
        r == adjacent_clash(o@),
{
    let n = o.len();
    if n < 2 {
        return false;
    }
    let mut k: usize = 0;
    while k + 1 < n
        invariant
            n == o@.len(),
            n >= 2,
            k + 1 <= n,
            forall|q: int| 0 <= q < k ==> !clash(#[trigger] o@[q], o@[q + 1]),
        decreases n - k,
    {
        let a = o[k];
        let b = o[k + 1];
        if a.1 > b.0 || (a.0 == b.0 && a.1 > a.0) {
            return true;
        }
        k = k + 1;
    }
    false
}

/// Doing edit `k` on the text where the later edits are done.
proof fn lemma_partial_step(t: Seq<char>, o: Seq<(usize, usize, usize)>, p: Seq<char>, k: int)
    requires
        0 <= k < o.len(),
        forall|q: int| 0 <= q < o.len() ==> (#[trigger] o[q]).0 <= o[q].1 <= t.len(),
        forall|q: int| 0 <= q < o.len() - 1 ==> (#[trigger] o[q]).1 <= o[q + 1].0,
    ensures
        partial_text(t, o, p, k) == partial_text(t, o, p, k + 1).take(o[k].0 as int) + p + partial_text(
            t,
            o,
            p,
            k + 1,
        ).skip(o[k].1 as int),
        partial_text(t, o, p, k + 1).len() >= o[k].1,
{
    let s = o[k].0 as int;
    let e = o[k].1 as int;
    let nxt = partial_text(t, o, p, k + 1);
    assert(edit_tail(t, o, p, k) == p + t.subrange(e, gap_end(t, o, k)) + edit_tail(t, o, p, k + 1));
    if k + 1 == o.len() {
        assert(edit_tail(t, o, p, k + 1) == Seq::<char>::empty());
        assert(partial_text(t, o, p, k) =~= nxt.take(s) + p + nxt.skip(e));
    } else {
        let s2 = o[k + 1].0 as int;
        assert(e <= s2);
        assert(nxt.take(s) =~= t.take(s));
        assert(nxt.skip(e) =~= t.subrange(e, s2) + edit_tail(t, o, p, k + 1));
        assert(partial_text(t, o, p, k) =~= nxt.take(s) + p + nxt.skip(e));
    }
}

impl EditorCore {
    /// The edits of all cursors (see [`edits_of`]); `None` when one of them
    /// cannot be done (see [`blocked`]).
    fn collect_plans(&self, code: u8) -> (r: Option<Vec<(usize, usize, usize)>>)
        requires
            self.wf(),
            self.extras_ok(),
            code <= 2,
        ensures
            r is None <==> blocked(self.ls(), self.multi_plans(code as int)),
            r matches Some(es) ==> es@ == edits_of(self.multi_plans(code as int))
                && es@.len() == self.extra_cursors@.len() + 1
                && (forall|k: int| 0 <= k < es@.len() ==> (#[trigger] es@[k]).2 == k)
                && (forall|k: int| 0 <= k < es@.len() ==> (#[trigger] es@[k]).0 <= es@[k].1 <= self.doc.text().len()),
    {
        let ghost plans = self.multi_plans(code as int);
        let mut es: Vec<(usize, usize, usize)> = Vec::new();
        match self.cursor_plan_exec(code, self.anchor, self.cursor, true) {
            None => {
                assert(plans[0] is None);
                return None;
            },
            Some((s, e)) => {
                if self.crosses_exec(s, e) {
                    assert(crosses(self.ls(), plans[0].unwrap().0, plans[0].unwrap().1));
                    return None;
                }
                es.push((s, e, 0));
            },
        }
        let mut i: usize = 0;
        while i < self.extra_cursors.len()
            invariant
                self.wf(),
                self.extras_ok(),
                code <= 2,
                plans == self.multi_plans(code as int),
                i <= self.extra_cursors@.len(),
                es@.len() == i + 1,
                forall|k: int| 0 <= k < i + 1 ==> #[trigger] plans[k] is Some && !crosses(self.ls(), plans[k].unwrap().0, plans[k].unwrap().1),
                forall|k: int| 0 <= k < i + 1 ==> #[trigger] es@[k] == edits_of(plans)[k],
                forall|k: int| 0 <= k < i + 1 ==> (#[trigger] es@[k]).0 <= es@[k].1 <= self.doc.text().len(),
            decreases self.extra_cursors@.len() - i,
        {
            let ec = self.extra_cursors[i];
            proof {
                assert(pos_in(self.ls(), self.extra_cursors@[i as int].cursor));
            }
            match self.cursor_plan_exec(code, ec.anchor, ec.cursor, false) {
                None => {
                    assert(plans[i + 1] is None);
                    return None;
                },
                Some((s, e)) => {
                    if self.crosses_exec(s, e) {
                        assert(crosses(self.ls(), plans[i + 1].unwrap().0, plans[i + 1].unwrap().1));
                        return None;
                    }
                    es.push((s, e, i + 1));
                },
            }
            i = i + 1;
        }
        proof {
            assert(es@ =~= edits_of(plans));
            assert forall|k: int| 0 <= k < es@.len() implies (#[trigger] es@[k]).2 == k by {}
        }
        Some(es)
    }

    /// Does the same edit at the main cursor and at every extra cursor, as
    /// one undo step: an insertion (its line breaks turned into the
    /// document's), a backspace or a forward delete, each replacing the
    /// cursor's selection when it has one. `None` when there are no extra
    /// cursors, or when the edit cannot be done at all of them at once (a
    /// cursor cannot do it, a range spans lines, or two ranges get in each
    /// other's way): then the extra cursors are dropped and nothing else
    /// changes, so that the caller can do a plain edit. `Some(false)` when
    /// nothing is to be done. Otherwise every cursor lands after its edit
    /// (see [`EditorCore::multi_done`]), without a selection.
    #[verifier::rlimit(40)]
    pub fn multi_edit(&mut self, kind: MultiEditKind) -> (r: Option<bool>)
        requires
            old(self).wf(),
            old(self).extras_ok(),
            old(self).doc.text().len() + 2 * (old(self).extra_cursors@.len() + 1) * kind_text(kind).len() + 1 < isize::MAX,
        ensures
            final(self).wf(),
            final(self).extras_ok(),
            old(self).multi_edit_result(final(self), kind, r),
    {
        if self.extra_cursors.len() == 0 {
            return None;
        }
        let code: u8 = match kind {
            MultiEditKind::Insert(_) => 0,
            MultiEditKind::Backspace => 1,
            MultiEditKind::Delete => 2,
        };
        let p: Vec<char> = match kind {
            MultiEditKind::Insert(text) => {
                let raw = chars_of(text);
                proof {
                    lemma_normalize_len(raw@, self.doc.ending);
                    assert(2 * raw@.len() <= 2 * (self.extra_cursors@.len() + 1) * raw@.len()) by (nonlinear_arith);
                }
                normalize_chars(raw.as_slice(), self.doc.line_ending())
            },
            _ => Vec::new(),
        };
        let ghost pspec = self.payload(kind);
        proof {
            lemma_normalize_len(kind_text(kind), self.doc.ending);
            assert(p@ == pspec);
            assert(p@.len() <= 2 * kind_text(kind).len());
        }
        if code == 0 && p.len() == 0 {
            return Some(false);
        }
        assert(!(kind is Insert && pspec.len() == 0));
        let ghost plans = self.multi_plans(code as int);
        let ghost t = self.doc.text();
        let es = match self.collect_plans(code) {
            None => {
                self.extra_cursors = Vec::new();
                return None;
            },
            Some(v) => v,
        };
        let n = es.len();
        proof {
            assert((self.extra_cursors@.len() + 1) * p@.len() <= 2 * (self.extra_cursors@.len() + 1) * kind_text(kind).len())
                by (nonlinear_arith)
                requires
                    p@.len() <= 2 * kind_text(kind).len(),
            ;
        }
        let o = order_edits(&es);
        proof {
            lemma_clash_adjacent(o@, es@);
        }
        if find_clash(&o) {
            self.extra_cursors = Vec::new();
            return None;
        }
        proof {
            assert forall|q: int| 0 <= q < o@.len() implies (#[trigger] o@[q]).0 <= o@[q].1 <= t.len()
                && (q < o@.len() - 1 ==> o@[q].1 <= o@[q + 1].0) && o@[q].2 < n by {
                assert(es@.contains(o@[q]));
                let w = choose|w: int| 0 <= w < es@.len() && es@[w] == o@[q];
                if q < o@.len() - 1 {
                    assert(!clash(o@[q], o@[q + 1]));
                }
            }
        }
        if p.len() == 0 {
            let mut k: usize = 0;
            let mut idle = true;
            while k < n
                invariant
                    n == es@.len(),
                    k <= n,
                    idle == forall|q: int| 0 <= q < k ==> (#[trigger] es@[q]).0 == es@[q].1,
                decreases n - k,
            {
                if es[k].0 != es[k].1 {
                    idle = false;
                }
                k = k + 1;
            }
            if idle {
                return Some(false);
            }
        }
        self.apply_all(&o, &p, Ghost(es@), Ghost(t));
        proof {
            assert(is_order_of(o@, edits_of(plans)));
            assert(old(self).multi_done(self, o@, pspec));
            assert(old(self).multi_edit_result(self, kind, Some(true)));
        }
        Some(true)
    }

    /// Does the ordered edits (the later ones first), then places every
    /// cursor after its payload.
    fn apply_all(&mut self, o: &Vec<(usize, usize, usize)>, p: &Vec<char>, Ghost(es): Ghost<Seq<(usize, usize, usize)>>, Ghost(t): Ghost<Seq<char>>)
        requires
            old(self).wf(),
            t == old(self).doc.text(),
            es.len() == old(self).extra_cursors@.len() + 1,
            forall|k: int| 0 <= k < es.len() ==> (#[trigger] es[k]).2 == k,
            is_order_of(o@, es),
            forall|q: int| 0 <= q < o@.len() ==> (#[trigger] o@[q]).0 <= o@[q].1 <= t.len()
                && (q < o@.len() - 1 ==> o@[q].1 <= o@[q + 1].0) && o@[q].2 < es.len(),
            t.len() + es.len() * p@.len() + 1 < isize::MAX,
        ensures
            final(self).wf(),
            final(self).extras_ok(),
            old(self).multi_done(final(self), o@, p@),
            final(self).undo_view() == push_capped(old(self).undo_view(), old(self).snap()),
            final(self).redo_view() == Seq::<SnapV>::empty(),
            final(self).typing_run is None,
            final(self).block_sel == old(self).block_sel,
            final(self).saved_baseline == old(self).saved_baseline,
            edit_frame(old(self), final(self)),
    {
        let n = o.len();
        let plen = p.len();
        let nl = measure_chars(p.as_slice()).0;
        proof {
            lemma_break_count_bound(p@);
        }
        let mut lines: Vec<usize> = Vec::new();
        let mut q: usize = 0;
        while q < n
            invariant
                self.wf(),
                *self == *old(self),
                n == o@.len(),
                q <= n,
                lines@.len() == q,
                forall|k: int| 0 <= k < q ==> #[trigger] lines@[k] as int == line_of_offset(old(self).ls(), o@[k].0 as int),
            decreases n - q,
        {
            let (l, _) = self.doc.char_to_pos(o[q].0);
            lines.push(l);
            q = q + 1;
        }
        let ghost lines_spec = Seq::new(n as nat, |k: int| line_of_offset(old(self).ls(), o@[k].0 as int));
        proof {
            assert(Seq::new(n as nat, |k: int| lines@[k] as int) =~= lines_spec);
        }
        self.snapshot();
        let ghost mid = *self;
        let mut k: usize = n;
        proof {
            assert(lines_spec.take(n as int) =~= lines_spec);
        }
        while k > 0
            invariant
                n == o@.len(),
                k <= n,
                self.doc.wf(),
                self.doc.text() == partial_text(t, o@, p@, k as int),
                self.doc.ending == mid.doc.ending,
                self.doc.text().len() <= t.len() + (n - k) * plen,
                plen == p@.len(),
                t.len() + n * plen + 1 < isize::MAX,
                nl == spec_break_count(p@),
                nl <= plen,
                forall|q: int| 0 <= q < o@.len() ==> (#[trigger] o@[q]).0 <= o@[q].1 <= t.len()
                    && (q < o@.len() - 1 ==> o@[q].1 <= o@[q + 1].0),
                lines@.len() == n,
                lines_spec.len() == n,
                forall|q: int| 0 <= q < n ==> #[trigger] lines@[q] as int == lines_spec[q],
                self.bookmarks.wf(),
                nl == 0 ==> self.bookmarks == mid.bookmarks,
                nl > 0 ==> shift_marks(mid.bookmarks.set(), lines_spec, nl as int) == shift_marks(self.bookmarks.set(), lines_spec.take(k as int), nl as int),
                self.cursor == mid.cursor,
                self.anchor == mid.anchor,
                self.undo_stack == mid.undo_stack,
                self.redo_stack == mid.redo_stack,
                self.typing_run == mid.typing_run,
                self.block_sel == mid.block_sel,
                self.saved_baseline == mid.saved_baseline,
                self.extra_cursors == mid.extra_cursors,
                edit_frame(&mid, self),
            decreases k,
        {
            k = k - 1;
            proof {
                lemma_partial_step(t, o@, p@, k as int);
                assert((n - k - 1) * plen + plen == (n - k) * plen) by (nonlinear_arith);
                assert((n - k) * plen <= n * plen) by (nonlinear_arith)
                    requires
                        k <= n;
            }
            self.doc.replace_range(o[k].0, o[k].1, p.as_slice());
            if nl > 0 {
                let ghost before = self.bookmarks.set();
                self.bookmarks = remap_shift_below(&self.bookmarks, lines[k], nl as isize);
                proof {
                    let lt = lines_spec.take(k + 1);
                    assert(lt.drop_last() =~= lines_spec.take(k as int));
                    assert(lt.last() == lines_spec[k as int]);
                }
            }
            proof {
                assert(self.doc.text() =~= partial_text(t, o@, p@, k as int));
            }
        }
        let mut land: Vec<usize> = Vec::new();
        let mut z: usize = 0;
        while z < n
            invariant
                z <= n,
                land@.len() == z,
            decreases n - z,
        {
            land.push(0);
            z = z + 1;
        }
        let mut removed: usize = 0;
        let mut added: usize = 0;
        let mut j: usize = 0;
        while j < n
            invariant
                n == o@.len(),
                n == es.len(),
                j <= n,
                land@.len() == n,
                plen == p@.len(),
                t.len() + n * plen + 1 < isize::MAX,
                forall|q: int| 0 <= q < o@.len() ==> (#[trigger] o@[q]).0 <= o@[q].1 <= t.len()
                    && (q < o@.len() - 1 ==> o@[q].1 <= o@[q + 1].0) && o@[q].2 < n,
                forall|a: int, b: int| 0 <= a < b < o@.len() ==> ekey_lt(#[trigger] o@[a], #[trigger] o@[b]),
                forall|k: int| 0 <= k < es.len() ==> (#[trigger] es[k]).2 == k,
                forall|q: int| 0 <= q < o@.len() ==> es.contains(#[trigger] o@[q]),
                added == j * plen,
                j < n ==> removed <= o@[j as int].0,
                removed <= t.len(),
                shift_before(o@, plen as int, j as int) == added - removed,
                forall|q: int| 0 <= q < j ==> #[trigger] land@[o@[q].2 as int] == landing(o@, plen as int, q),
            decreases n - j,
        {
            let (s, e, w) = o[j];
            proof {
                assert((j + 1) * plen == j * plen + plen) by (nonlinear_arith);
                assert((j + 1) * plen <= n * plen) by (nonlinear_arith)
                    requires
                        j < n;
            }
            let spot = s - removed + added + plen;
            proof {
                assert forall|q: int| 0 <= q < j implies o@[q].2 != w by {
                    assert(es.contains(o@[q]));
                    assert(es.contains(o@[j as int]));
                    let a = choose|a: int| 0 <= a < es.len() && es[a] == o@[q];
                    let b = choose|b: int| 0 <= b < es.len() && es[b] == o@[j as int];
                    assert(ekey_lt(o@[q], o@[j as int]));
                }
            }
            land.set(w, spot);
            removed = removed + (e - s);
            added = added + plen;
            j = j + 1;
        }
        let (l0, c0) = self.doc.char_to_pos(land[0]);
        self.cursor = CursorPos { line: l0, col: c0 };
        self.anchor = None;
        self.typing_run = None;
        let mut upd: Vec<ExtraCursor> = Vec::new();
        let m = self.extra_cursors.len();
        let ghost lsf = self.ls();
        let mut x: usize = 0;
        while x < m
            invariant
                m == self.extra_cursors@.len(),
                m + 1 == n,
                land@.len() == n,
                x <= m,
                self.doc.wf(),
                lsf == self.ls(),
                upd@.len() == x,
                forall|i: int| 0 <= i < x ==> #[trigger] upd@[i] == (ExtraCursor { cursor: pos_at(lsf, land@[i + 1] as int), anchor: None }),
                extras_on(lsf, upd@),
            decreases m - x,
        {
            let (l, c) = self.doc.char_to_pos(land[x + 1]);
            upd.push(ExtraCursor { cursor: CursorPos { line: l, col: c }, anchor: None });
            x = x + 1;
        }
        let merged = sorted_dedup(&upd);
        proof {
            lemma_dedup_on(lsf, merged@, upd@);
            assert forall|w: int| 0 <= w < n implies #[trigger] land@[w] as int == landing(o@, plen as int, idx_of(o@, w)) by {
                assert(o@.contains(es[w]));
                let k0 = choose|k0: int| 0 <= k0 < o@.len() && o@[k0] == es[w];
                assert(o@[k0].2 == w);
                let kk = idx_of(o@, w);
                assert(0 <= kk < o@.len() && o@[kk].2 == w);
                assert(land@[o@[kk].2 as int] == landing(o@, plen as int, kk));
            }
            assert(upd@ =~= Seq::new(
                m as nat,
                |i: int| ExtraCursor { cursor: pos_at(lsf, landing(o@, plen as int, idx_of(o@, i + 1))), anchor: None },
            ));
            assert(self.cursor == pos_at(lsf, landing(o@, plen as int, idx_of(o@, 0))));
        }
        self.extra_cursors = merged;
        proof {
            reveal(EditorCore::multi_done);
        }
    }
}

} // verus!
