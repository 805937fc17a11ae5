//! Undo/redo history and the saved-content baseline.

use vstd::prelude::*;
use crate::document::{Document, LineV, lines_wf};
use crate::editor::{EditorCore, Snapshot, SnapV, snap_v, snap_ok, push_capped};

verus! {

/// `post` is `pre` after one undo step: the newest saved state is back, and
/// the state it replaced went onto the redo history.
pub open spec fn undone(pre: &EditorCore, post: &EditorCore) -> bool {
    &&& pre.undo_view().len() > 0
    &&& post.snap() == pre.undo_view().last()
    &&& post.undo_view() == pre.undo_view().drop_last()
    &&& post.redo_view() == pre.redo_view().push(pre.snap())
}

/// `post` is `pre` after one redo step.
pub open spec fn redone(pre: &EditorCore, post: &EditorCore) -> bool {
    &&& pre.redo_view().len() > 0
    &&& post.snap() == pre.redo_view().last()
    &&& post.redo_view() == pre.redo_view().drop_last()
    &&& post.undo_view() == pre.undo_view().push(pre.snap())
}

/// Undoing right after a change that saved the prior state restores that
/// state exactly (document, cursor, selection, bookmarks).
pub proof fn law_undo_restores_state(before: &EditorCore, after: &EditorCore, undo_result: &EditorCore)
    requires
        after.undo_view() == push_capped(before.undo_view(), before.snap()),
        undone(after, undo_result),
    ensures
        undo_result.snap() == before.snap(),
{
    let s = before.undo_view();
    if s.len() + 1 > crate::editor::MAX_UNDO {
        assert(s.push(before.snap()).drop_first().last() == before.snap());
    }
}

/// An editor that matched its saved content, changed by an edit that kept
/// the prior state in the history, matches the saved content again once
/// that edit is undone (the page is clean again).
pub proof fn law_undo_back_to_saved(before: &EditorCore, after: &EditorCore, undo_result: &EditorCore)
    requires
        before.saved_baseline matches Some(d) && d.text() == before.doc.text(),
        after.undo_view() == push_capped(before.undo_view(), before.snap()),
        after.saved_baseline == before.saved_baseline,
        undone(after, undo_result),
        undo_result.saved_baseline == after.saved_baseline,
    ensures
        undo_result.saved_baseline matches Some(d) && d.text() == undo_result.doc.text(),
{
    law_undo_restores_state(before, after, undo_result);
    assert(undo_result.doc.lv() == before.doc.lv());
}

/// Typing or pasting outside a typing run is one undo step: undoing it
/// gives back the text, cursor, selection and bookmarks from before, and
/// redoing then gives back the state after the insertion.
pub proof fn law_insert_then_undo(pre: &EditorCore, post: &EditorCore, raw: Seq<char>, u: &EditorCore, r: &EditorCore)
    requires
        pre.typing_run is None,
        pre.insert_outcome(post, raw),
        undone(post, u),
        redone(u, r),
    ensures
        u.snap() == pre.snap(),
        r.snap() == post.snap(),
{
    assert(!pre.joins_run(pre.typed(raw)));
    law_undo_restores_state(pre, post, u);
    assert(u.redo_view().last() == post.snap());
}

/// Redo right after undo gives back the state before the undo, with both
/// histories as they were.
pub proof fn law_redo_inverts_undo(s0: &EditorCore, s1: &EditorCore, s2: &EditorCore)
    requires
        undone(s0, s1),
        redone(s1, s2),
    ensures
        s2.snap() == s0.snap(),
        s2.undo_view() == s0.undo_view(),
        s2.redo_view() == s0.redo_view(),
{
    assert(s2.undo_view() =~= s0.undo_view());
    assert(s2.redo_view() =~= s0.redo_view());
}

/// Undo right after redo gives back the state before the redo.
pub proof fn law_undo_inverts_redo(s0: &EditorCore, s1: &EditorCore, s2: &EditorCore)
    requires
        redone(s0, s1),
        undone(s1, s2),
    ensures
        s2.snap() == s0.snap(),
        s2.undo_view() == s0.undo_view(),
        s2.redo_view() == s0.redo_view(),
{
    assert(s2.undo_view() =~= s0.undo_view());
    assert(s2.redo_view() =~= s0.redo_view());
}

/// What stepping through the history leaves alone: the extra cursors,
/// the overwrite, focus, composition and drag state, the syntax, the view
/// switches and the saved baseline.
pub open spec fn history_frame(pre: &EditorCore, post: &EditorCore) -> bool {
    &&& post.extra_cursors == pre.extra_cursors
    &&& post.overwrite == pre.overwrite
    &&& post.focused == pre.focused
    &&& post.preedit == pre.preedit
    &&& post.dnd == pre.dnd
    &&& post.syntax_name == pre.syntax_name
    &&& post.read_only == pre.read_only
    &&& post.caret == pre.caret
    &&& post.show_whitespace == pre.show_whitespace
    &&& post.show_line_endings == pre.show_line_endings
    &&& post.indent_guides == pre.indent_guides
    &&& post.edge_column == pre.edge_column
    &&& post.wrap_enabled == pre.wrap_enabled
    &&& post.max_line_cols == pre.max_line_cols
    &&& post.saved_baseline == pre.saved_baseline
}

impl EditorCore {
    /// Records the current content as what is on disk.
    pub fn mark_saved(&mut self)
        requires
            old(self).wf(),
        ensures
            final(self).wf(),
            final(self).saved_baseline matches Some(d) && d.text() == old(self).doc.text(),
            final(self).same_state(old(self)),
            final(self).undo_stack@ == old(self).undo_stack@,
            final(self).redo_stack@ == old(self).redo_stack@,
            final(self).typing_run == old(self).typing_run,
    {
        let d = self.doc.clone_doc();
        self.saved_baseline = Some(d);
    }

    /// Whether the content equals the saved baseline (false without one).
    pub fn is_at_saved_content(&self) -> (r: bool)
        ensures
            r == (self.saved_baseline matches Some(d) && d.text() == self.doc.text()),
    {
        match &self.saved_baseline {
            Some(base) => base.content_eq(&self.doc),
            None => false,
        }
    }

    /// Drops the saved baseline (restored sessions: their content did not
    /// come from disk).
    pub fn clear_saved_baseline(&mut self)
        requires
            old(self).wf(),
        ensures
            final(self).wf(),
            final(self).saved_baseline is None,
            final(self).same_state(old(self)),
            final(self).undo_stack@ == old(self).undo_stack@,
            final(self).redo_stack@ == old(self).redo_stack@,
            final(self).typing_run == old(self).typing_run,
    {
        self.saved_baseline = None;
    }

    /// Swaps the current state with `snap`, returning the current state as
    /// a snapshot.
    fn swap_state(&mut self, snap: Snapshot) -> (out: Snapshot)
        requires
            old(self).wf(),
            snap_ok(snap_v(snap)),
        ensures
            final(self).snap() == snap_v(snap),
            snap_v(out) == old(self).snap(),
            snap_ok(snap_v(out)),
            final(self).undo_stack@ == old(self).undo_stack@,
            final(self).redo_stack@ == old(self).redo_stack@,
            final(self).saved_baseline == old(self).saved_baseline,
            final(self).focused == old(self).focused,
            final(self).overwrite == old(self).overwrite,
            final(self).syntax_name == old(self).syntax_name,
            final(self).block_sel == old(self).block_sel,
            final(self).typing_run == old(self).typing_run,
            history_frame(old(self), final(self)),
            final(self).max_cols_stale == old(self).max_cols_stale,
            final(self).block_dragging == old(self).block_dragging,
    {
        let Snapshot { doc, cursor, anchor, bookmarks } = snap;
        let mut old_doc = doc;
        std::mem::swap(&mut self.doc, &mut old_doc);
        let mut old_marks = bookmarks;
        std::mem::swap(&mut self.bookmarks, &mut old_marks);
        let out = Snapshot { doc: old_doc, cursor: self.cursor, anchor: self.anchor, bookmarks: old_marks };
        self.cursor = cursor;
        self.anchor = anchor;
        out
    }

    /// Steps back one entry of the history. Returns false (and changes
    /// nothing but ending the typing run and clearing the block) when there
    /// is nothing to undo.
    pub fn undo(&mut self) -> (r: bool)
        requires
            old(self).wf(),
        ensures
            final(self).wf(),
            r == (old(self).undo_view().len() > 0),
            r ==> undone(old(self), final(self)),
            !r ==> final(self).same_state(old(self)) && final(self).undo_stack@ == old(self).undo_stack@
                && final(self).redo_stack@ == old(self).redo_stack@,
            final(self).typing_run is None,
            final(self).block_sel is None,
            final(self).saved_baseline == old(self).saved_baseline,
            history_frame(old(self), final(self)),
    {
        self.typing_run = None;
        self.block_dragging = false;
        self.block_sel = None;
        let ghost pre = *self;
        let ghost uv = self.undo_view();
        match self.undo_stack.pop() {
            None => {
                proof {
                    assert(uv.len() == 0);
                }
                false
            },
            Some(snap) => {
                proof {
                    assert(self.undo_view() =~= uv.drop_last());
                    assert(snap_v(snap) == uv.last());
                    assert(snap_ok(snap_v(pre.undo_stack@[pre.undo_stack@.len() - 1])));
                    assert(snap_ok(snap_v(snap)));
                }
                let ghost rv = self.redo_view();
                let cur = self.swap_state(snap);
                let ghost cv = snap_v(cur);
                self.redo_stack.push(cur);
                self.max_cols_stale = true;
                proof {
                    assert(self.redo_view() =~= rv.push(cv));
                    assert forall|i: int| 0 <= i < self.undo_stack@.len() implies #[trigger] snap_ok(snap_v(self.undo_stack@[i])) by {
                        assert(self.undo_stack@[i] == pre.undo_stack@[i]);
                    }
                    assert forall|i: int| 0 <= i < self.redo_stack@.len() implies #[trigger] snap_ok(snap_v(self.redo_stack@[i])) by {
                        if i < pre.redo_stack@.len() {
                            assert(self.redo_stack@[i] == pre.redo_stack@[i]);
                        }
                    }
                }
                true
            },
        }
    }

    /// Steps forward one entry of the history (the mirror of [`Self::undo`]).
    pub fn redo(&mut self) -> (r: bool)
        requires
            old(self).wf(),
        ensures
            final(self).wf(),
            r == (old(self).redo_view().len() > 0),
            r ==> redone(old(self), final(self)),
            !r ==> final(self).same_state(old(self)) && final(self).undo_stack@ == old(self).undo_stack@
                && final(self).redo_stack@ == old(self).redo_stack@,
            final(self).typing_run is None,
            final(self).block_sel is None,
            final(self).saved_baseline == old(self).saved_baseline,
            history_frame(old(self), final(self)),
    {
        self.typing_run = None;
        self.block_dragging = false;
        self.block_sel = None;
        let ghost pre = *self;
        let ghost rv = self.redo_view();
        match self.redo_stack.pop() {
            None => {
                proof {
                    assert(rv.len() == 0);
                }
                false
            },
            Some(snap) => {
                proof {
                    assert(self.redo_view() =~= rv.drop_last());
                    assert(snap_v(snap) == rv.last());
                    assert(snap_ok(snap_v(pre.redo_stack@[pre.redo_stack@.len() - 1])));
                }
                let ghost uv = self.undo_view();
                let cur = self.swap_state(snap);
                let ghost cv = snap_v(cur);
                self.undo_stack.push(cur);
                self.max_cols_stale = true;
                proof {
                    assert(self.undo_view() =~= uv.push(cv));
                    assert forall|i: int| 0 <= i < self.redo_stack@.len() implies #[trigger] snap_ok(snap_v(self.redo_stack@[i])) by {
                        assert(self.redo_stack@[i] == pre.redo_stack@[i]);
                    }
                    assert forall|i: int| 0 <= i < self.undo_stack@.len() implies #[trigger] snap_ok(snap_v(self.undo_stack@[i])) by {
                        if i < pre.undo_stack@.len() {
                            assert(self.undo_stack@[i] == pre.undo_stack@[i]);
                        }
                    }
                }
                true
            },
        }
    }
}

} // verus!
