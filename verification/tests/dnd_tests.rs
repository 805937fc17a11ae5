use editpad::document::Document;
use editpad::editor::{BlockSel, CursorPos, EditorCore};

fn core_with(text: &str) -> EditorCore {
    let mut c = EditorCore::default();
    c.reset_document(Document::from_str(text));
    c
}

fn select(c: &mut EditorCore, l0: usize, c0: usize, l1: usize, c1: usize) {
    c.anchor = Some(CursorPos { line: l0, col: c0 });
    c.cursor = CursorPos { line: l1, col: c1 };
}

#[test]
fn dnd_move_relocates_text_with_single_undo() {
    let mut c = core_with("abcd\nefgh\n");
    select(&mut c, 0, 1, 0, 3); // "bc"
    // drop after "ef" on line 1: delete, then insert
    assert!(c.finish_drop_selection(CursorPos { line: 1, col: 2 }, false));
    assert_eq!(c.doc.to_text(), "ad\nefbcgh\n");
    // the cursor lands after the inserted text, the selection goes
    assert_eq!(c.cursor, CursorPos { line: 1, col: 4 });
    assert!(c.anchor.is_none());
    // one undo restores everything
    assert!(c.undo());
    assert_eq!(c.doc.to_text(), "abcd\nefgh\n");
}

#[test]
fn dnd_copy_inserts_and_keeps_source() {
    let mut c = core_with("abcd\nefgh\n");
    select(&mut c, 0, 1, 0, 3);
    assert!(c.finish_drop_selection(CursorPos { line: 1, col: 2 }, true));
    assert_eq!(c.doc.to_text(), "abcd\nefbcgh\n", "a copy only inserts at the drop point");
}

#[test]
fn dnd_move_inside_selection_is_noop() {
    let mut c = core_with("abcd\nefgh\n");
    select(&mut c, 0, 1, 0, 3);
    // a drop inside the selection changes nothing
    assert!(!c.finish_drop_selection(CursorPos { line: 0, col: 2 }, false));
    assert_eq!(c.doc.to_text(), "abcd\nefgh\n");
    // nor does one on its ends
    assert!(!c.finish_drop_selection(CursorPos { line: 0, col: 1 }, false));
    assert!(!c.finish_drop_selection(CursorPos { line: 0, col: 3 }, false));
}

#[test]
fn dnd_press_guards_and_state() {
    let mut c = core_with("abcd\nefgh\n");
    // no selection: no drag
    assert!(!c.begin_dnd_at(CursorPos { line: 0, col: 1 }));
    select(&mut c, 0, 1, 0, 3);
    // a press outside the selection: no drag
    assert!(!c.begin_dnd_at(CursorPos { line: 0, col: 0 }));
    assert!(!c.begin_dnd_at(CursorPos { line: 1, col: 0 }));
    // inside (ends included): armed
    assert!(c.begin_dnd_at(CursorPos { line: 0, col: 2 }));
    assert!(c.dnd.is_some());
    assert!(!c.dnd.as_ref().unwrap().started, "armed, not started");
    // read-only: no drag
    c.cancel_dnd();
    c.read_only = true;
    assert!(!c.begin_dnd_at(CursorPos { line: 0, col: 2 }));
    c.read_only = false;
    // column block: no drag
    c.block_sel = Some(BlockSel { anchor: CursorPos::default(), head: CursorPos::default() });
    assert!(!c.begin_dnd_at(CursorPos { line: 0, col: 2 }));
}

#[test]
fn dnd_drag_starts_only_when_far_enough_then_tracks_drop() {
    let mut c = core_with("abcd\nefgh\n");
    select(&mut c, 0, 1, 0, 3);
    assert!(c.begin_dnd_at(CursorPos { line: 0, col: 2 }));
    // not far enough: still armed
    assert!(!c.drag_dnd_to(CursorPos { line: 0, col: 2 }, false));
    assert!(!c.dnd.as_ref().unwrap().started);
    // far enough: the drag starts and follows the pointer
    assert!(c.drag_dnd_to(CursorPos { line: 1, col: 1 }, true));
    assert!(c.dnd.as_ref().unwrap().started);
    assert!(c.drag_dnd_to(CursorPos { line: 1, col: 3 }, false));
    assert_eq!(c.dnd.as_ref().unwrap().drop, CursorPos { line: 1, col: 3 });
    // cancel: the drag goes, the selection stays
    c.cancel_dnd();
    assert!(c.dnd.is_none());
    assert!(c.selection_offsets().is_some());
    // without a drag nothing happens
    assert!(!c.drag_dnd_to(CursorPos { line: 0, col: 0 }, true));
}

#[test]
fn dnd_move_backwards_across_lines_and_bookmarks() {
    let mut c = core_with("a\nbc\nd\ne");
    // mark line 3 ("e")
    c.cursor = CursorPos { line: 3, col: 0 };
    assert!(c.toggle_bookmark());
    // move "c\nd" (line 1 col 1 .. line 2 col 1) to the start of the text
    select(&mut c, 1, 1, 2, 1);
    assert!(c.finish_drop_selection(CursorPos { line: 0, col: 0 }, false));
    assert_eq!(c.doc.to_text(), "c\nda\nb\ne");
    assert_eq!(c.cursor, CursorPos { line: 1, col: 1 });
    assert_eq!(c.bookmarked_lines(), vec![3], "the mark stays on line \"e\"");
    assert!(c.dnd.is_none());
}
