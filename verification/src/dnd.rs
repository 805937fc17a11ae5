//! Dragging the selection inside the document: a press inside the
//! selection arms the drag, moving far enough starts it, and the drop moves
//! the text there (or copies it) as one undo step.

use vstd::prelude::*;
use crate::document::{LineV, lines_wf, line_of_offset, text_of, lemma_pos_round_trip};
use crate::editor::{CursorPos, DndState, EditorCore, SnapV, push_capped};
use crate::lineset::image;
use crate::marks::{removed_rows_map, shift_map, remap_removed_rows, remap_shift_below};
use crate::multiedit::pos_at;

verus! {

/// How many `\n` characters `s` holds.
pub open spec fn count_nl(s: Seq<char>) -> nat
    decreases s.len(),
{
    if s.len() == 0 {
        0
    } else {
        count_nl(s.drop_last()) + if s.last() == '\n' { 1nat } else { 0nat }
    }
}

/// [`count_nl`] for exec code.
fn count_newlines(v: &Vec<char>) -> (r: usize)
    ensures
        r == count_nl(v@),
        r <= v@.len(),
{
    let mut n: usize = 0;
    let mut i: usize = 0;
    proof {
        assert(v@.take(0) =~= Seq::<char>::empty());
    }
    while i < v.len()
        invariant
            i <= v@.len(),
            n == count_nl(v@.take(i as int)),
            n <= i,
        decreases v@.len() - i,
    {
        proof {
            assert(v@.take(i + 1).drop_last() =~= v@.take(i as int));
        }
        if v[i] == '\n' {
            n = n + 1;
        }
        i = i + 1;
    }
    proof {
        assert(v@.take(i as int) =~= v@);
    }
    n
}

impl EditorCore {
    /// Offset of a position with its column clamped to its line.
    pub open spec fn clamped_off(&self, p: CursorPos) -> int {
        let b = self.ls()[p.line as int].body.len() as int;
        self.doc.lstart(p.line as int) + if p.col <= b { p.col as int } else { b }
    }

    /// A press at `hit` can arm a drag: no drag, block, composition or
    /// extra cursor, the document editable, and `hit` inside the selection
    /// (its ends included).
    pub open spec fn dnd_can_begin(&self, hit: CursorPos) -> bool {
        &&& self.dnd is None
        &&& self.block_sel is None
        &&& self.preedit is None
        &&& !self.read_only
        &&& self.extra_cursors@.len() == 0
        &&& self.sel_offsets() matches Some((s, e)) && s <= self.clamped_off(hit) <= e
    }

    /// A press at `hit` (a position of the document's lines): arms a drag
    /// of the selection when [`EditorCore::dnd_can_begin`] holds; the
    /// selection and the cursor stay as they are.
    pub fn begin_dnd_at(&mut self, hit: CursorPos) -> (r: bool)
        requires
            old(self).wf(),
            hit.line < old(self).ls().len(),
        ensures
            r == old(self).dnd_can_begin(hit),
            r ==> *final(self) == (EditorCore { dnd: Some(DndState { started: false, drop: hit }), ..*old(self) }),
            !r ==> *final(self) == *old(self),
    {
        if self.dnd.is_some() || self.block_sel.is_some() || self.preedit.is_some() || self.read_only
            || self.extra_cursors.len() > 0 {
            return false;
        }
        let (s, e) = match self.selection_offsets() {
            None => {
                return false;
            },
            Some(r) => r,
        };
        let len = self.doc.body_len(hit.line);
        let col = if hit.col <= len { hit.col } else { len };
        proof {
            lemma_pos_round_trip(self.ls(), hit.line as int, col as int);
        }
        let hit_off = self.doc.line_to_char(hit.line) + col;
        if hit_off < s || hit_off > e {
            return false;
        }
        self.dnd = Some(DndState { started: false, drop: hit });
        true
    }

    /// The pointer moved to `drop` while a drag is armed or running; a
    /// drag starts once the pointer has gone `far` enough from the press.
    /// Whether anything changed (nothing does without a drag, nor while an
    /// armed drag has not gone far enough).
    pub fn drag_dnd_to(&mut self, drop: CursorPos, far: bool) -> (r: bool)
        ensures
            r == (old(self).dnd matches Some(d) && (d.started || far)),
            r ==> *final(self) == (EditorCore { dnd: Some(DndState { started: true, drop }), ..*old(self) }),
            !r ==> *final(self) == *old(self),
    {
        match self.dnd {
            None => false,
            Some(d) => {
                if !d.started && !far {
                    return false;
                }
                self.dnd = Some(DndState { started: true, drop });
                true
            },
        }
    }

    /// Drops the drag; the selection stays.
    pub fn cancel_dnd(&mut self)
        ensures
            *final(self) == (EditorCore { dnd: None, ..*old(self) }),
    {
        self.dnd = None;
    }

    /// The selected range, if it holds a character.
    pub open spec fn drop_source(&self) -> Option<(int, int)> {
        match self.sel_offsets() {
            Some((s, e)) => if s < e { Some((s, e)) } else { None },
            None => None,
        }
    }

    /// A drop at `drop` does nothing: no selected text, or a move into the
    /// selection itself (its ends included).
    pub open spec fn drop_refused(&self, drop: CursorPos, copy: bool) -> bool {
        match self.drop_source() {
            None => true,
            Some((s, e)) => !copy && s <= self.clamped_off(drop) <= e,
        }
    }

    /// Moving the selection onto itself (a drop between its ends, the ends
    /// included) is refused, and so is any drop without a non-empty
    /// selection; [`EditorCore::finish_drop_selection`] then changes nothing
    /// but ending the drag.
    pub proof fn law_drop_into_selection_refused(&self, drop: CursorPos, copy: bool)
        ensures
            (self.sel_offsets() matches Some((s, e)) && s < e && s <= self.clamped_off(drop) <= e)
                ==> self.drop_refused(drop, false),
            (self.sel_offsets() is None || (self.sel_offsets() matches Some((s, e)) && s >= e))
                ==> self.drop_refused(drop, copy),
    {
    }

    /// The text with the selection taken out (moved) or kept (copied).
    pub open spec fn drop_base(&self, copy: bool) -> Seq<char> {
        let (s, e) = self.drop_source().unwrap();
        if copy { self.doc.text() } else { self.doc.text().take(s) + self.doc.text().skip(e) }
    }

    /// Where the dropped text goes in [`EditorCore::drop_base`].
    pub open spec fn drop_at(&self, drop: CursorPos, copy: bool) -> int {
        let (s, e) = self.drop_source().unwrap();
        let d = self.clamped_off(drop);
        if !copy && d > e { d - (e - s) } else { d }
    }

    /// Bookmarks once the selection is taken out: for a move the marks on
    /// the lines from the selection's first line, as many as the selection
    /// holds `\n`, vanish and the later ones move up.
    pub open spec fn drop_marks_base(&self, copy: bool) -> Set<usize> {
        let (s, e) = self.drop_source().unwrap();
        if copy {
            self.bookmarks.set()
        } else {
            image(
                self.bookmarks.set(),
                removed_rows_map(line_of_offset(self.ls(), s), count_nl(self.doc.text().subrange(s, e)) as int),
            )
        }
    }

    /// Moves (or, with `copy`, copies) the selected text to `drop`, as one
    /// undo step; the cursor lands after the inserted text, the selection
    /// goes, bookmarks follow the lines. Ends the drag in any case. `false`,
    /// with nothing else changed, when there is no selected text or a move
    /// would drop the text into the selection itself.
    pub fn finish_drop_selection(&mut self, drop: CursorPos, copy: bool) -> (r: bool)
        requires
            old(self).wf(),
            drop.line < old(self).ls().len(),
            2 * old(self).doc.text().len() + 1 < usize::MAX,
        ensures
            final(self).wf(),
            final(self).dnd is None,
            r == !old(self).drop_refused(drop, copy),
            !r ==> *final(self) == (EditorCore { dnd: None, ..*old(self) }),
            r ==> {
                let (s, e) = old(self).drop_source().unwrap();
                let moved = old(self).doc.text().subrange(s, e);
                let base = old(self).drop_base(copy);
                let i = old(self).drop_at(drop, copy);
                let k = count_nl(moved) as int;
                &&& final(self).doc.text() == base.take(i) + moved + base.skip(i)
                &&& final(self).doc.ending == old(self).doc.ending
                &&& final(self).cursor == pos_at(final(self).ls(), i + moved.len())
                &&& final(self).anchor is None
                &&& final(self).undo_view() == push_capped(old(self).undo_view(), old(self).snap())
                &&& final(self).redo_view() == Seq::<SnapV>::empty()
                &&& final(self).typing_run is None
                &&& (k == 0 ==> final(self).bookmarks.set() == old(self).drop_marks_base(copy))
                &&& (k > 0 ==> exists|mid: Seq<LineV>|
                    lines_wf(mid) && text_of(mid) == base && #[trigger] final(self).bookmarks.set() == image(
                        old(self).drop_marks_base(copy),
                        shift_map(line_of_offset(mid, i), k),
                    ))
                &&& final(self).block_sel == old(self).block_sel
                &&& final(self).saved_baseline == old(self).saved_baseline
                &&& final(self).extra_cursors == old(self).extra_cursors
            },
    {
        self.dnd = None;
        let (s, e) = match self.selection_offsets() {
            None => {
                return false;
            },
            Some(r) => r,
        };
        if s >= e {
            return false;
        }
        let len = self.doc.body_len(drop.line);
        let col = if drop.col <= len { drop.col } else { len };
        proof {
            lemma_pos_round_trip(self.ls(), drop.line as int, col as int);
        }
        let d = self.doc.line_to_char(drop.line) + col;
        if !copy && d >= s && d <= e {
            return false;
        }
        let ghost pre = *self;
        let moved = self.doc.slice(s, e);
        let k = count_newlines(&moved);
        let (first_line, _) = self.doc.char_to_pos(s);
        proof {
            crate::document::lemma_text_of_len_lines(self.ls());
        }
        self.typing_run = None;
        self.snapshot();
        let i = if copy {
            d
        } else {
            self.doc.replace_range(s, e, &[]);
            self.bookmarks = remap_removed_rows(&self.bookmarks, first_line, k);
            if d > e { d - (e - s) } else { d }
        };
        proof {
            assert(self.doc.text() =~= pre.drop_base(copy));
            assert(self.bookmarks.set() == pre.drop_marks_base(copy));
        }
        let ghost mid = self.doc.lv();
        if k > 0 {
            let (drop_line, _) = self.doc.char_to_pos(i);
            self.bookmarks = remap_shift_below(&self.bookmarks, drop_line, k as isize);
        }
        let ghost base = self.doc.text();
        self.doc.replace_range(i, i, moved.as_slice());
        let (l, c) = self.doc.char_to_pos(i + moved.len());
        self.cursor = CursorPos { line: l, col: c };
        self.anchor = None;
        proof {
            assert(self.doc.text() == base.take(i as int) + moved@ + base.skip(i as int));
            if k > 0 {
                assert(lines_wf(mid) && text_of(mid) == base);
            }
        }
        true
    }
}

} // verus!
