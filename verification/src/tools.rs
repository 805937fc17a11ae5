//! Text tools on the selection: the selected text goes to a transform
//! (encoding, decoding, digest), and its output replaces the selection.

use vstd::prelude::*;
use crate::editor::{CursorPos, EditErr, EditorCore, SnapV, push_capped};
use crate::multiedit::{sel_span, pos_at};
use crate::strs::{chars_of, string_of, same_chars};

verus! {

impl EditorCore {
    /// The selected text a tool works on; `Err(NoSelection)` when nothing
    /// is selected.
    pub fn tool_source(&self) -> (r: Result<String, EditErr>)
        requires
            self.wf(),
        ensures
            match sel_span(self.ls(), self.anchor, self.cursor) {
                None => r == Err::<String, EditErr>(EditErr::NoSelection),
                Some((s, e)) => r matches Ok(t) && t@ == self.doc.text().subrange(s, e),
            },
    {
        match self.sel_span_exec(self.anchor, self.cursor) {
            None => Err(EditErr::NoSelection),
            Some((s, e)) => {
                let v = self.doc.slice(s, e);
                Ok(string_of(v.as_slice()))
            },
        }
    }

    /// Replaces the selected text by a tool's output `out`, as one undo
    /// step, and selects the new text. `Err(NoSelection)` when nothing is
    /// selected; `Ok(false)`, with nothing changed, when the output equals
    /// the selected text. Bookmarks stay where they are.
    pub fn apply_tool_output(&mut self, out: &str) -> (r: Result<bool, EditErr>)
        requires
            old(self).wf(),
            old(self).doc.text().len() + out@.len() < usize::MAX,
        ensures
            final(self).wf(),
            match sel_span(old(self).ls(), old(self).anchor, old(self).cursor) {
                None => r == Err::<bool, EditErr>(EditErr::NoSelection) && *final(self) == *old(self),
                Some((s, e)) => if out@ == old(self).doc.text().subrange(s, e) {
                    r == Ok::<bool, EditErr>(false) && *final(self) == *old(self)
                } else {
                    &&& r == Ok::<bool, EditErr>(true)
                    &&& final(self).doc.text() == old(self).doc.text().take(s) + out@ + old(self).doc.text().skip(e)
                    &&& final(self).doc.ending == old(self).doc.ending
                    &&& final(self).anchor == Some(pos_at(final(self).ls(), s))
                    &&& final(self).cursor == pos_at(final(self).ls(), s + out@.len())
                    &&& final(self).undo_view() == push_capped(old(self).undo_view(), old(self).snap())
                    &&& final(self).redo_view() == Seq::<SnapV>::empty()
                    &&& final(self).typing_run is None
                    &&& final(self).bookmarks == old(self).bookmarks
                    &&& final(self).block_sel == old(self).block_sel
                    &&& final(self).saved_baseline == old(self).saved_baseline
                    &&& final(self).extra_cursors == old(self).extra_cursors
                },
            },
    {
        let (s, e) = match self.sel_span_exec(self.anchor, self.cursor) {
            None => {
                return Err(EditErr::NoSelection);
            },
            Some(r) => r,
        };
        let src = self.doc.slice(s, e);
        let o = chars_of(out);
        if same_chars(o.as_slice(), src.as_slice()) {
            return Ok(false);
        }
        self.snapshot();
        self.doc.replace_range(s, e, o.as_slice());
        let (sl, sc) = self.doc.char_to_pos(s);
        let (el, ec) = self.doc.char_to_pos(s + o.len());
        self.anchor = Some(CursorPos { line: sl, col: sc });
        self.cursor = CursorPos { line: el, col: ec };
        Ok(true)
    }
}

} // verus!
