use editpad::document::{Document, LineEnding};
use editpad::editor::{BlankKind, BlockSel, CaseKind, CursorPos, EditorCore, ImeCommit, Motion, SortOrder, TabSpaceKind, TrimMode};
use editpad::sampling::{rope_line_bodies, strip_newlines, XorShift64};

fn core_with(text: &str) -> EditorCore {
    let mut c = EditorCore::default();
    c.reset_document(Document::from_str(text));
    c
}

#[test]
fn motion_tests_insert_advances_cursor_and_updates_lines() {
    let mut c = core_with("hello\nworld\n");
    c.cursor = CursorPos { line: 0, col: 5 };
    c.insert_str(",\neditpad");
    assert_eq!(c.doc.to_text(), "hello,\neditpad\nworld\n");
    assert_eq!(c.cursor, CursorPos { line: 1, col: 7 });
}

#[test]
fn motion_tests_backspace_joins_lines_and_deletes_selection() {
    let mut c = core_with("ab\ncd\n");
    c.cursor = CursorPos { line: 1, col: 0 };
    c.backspace();
    assert_eq!(c.doc.to_text(), "abcd\n");
    assert_eq!(c.cursor, CursorPos { line: 0, col: 2 });

    c.reset_document(Document::from_str("abcd"));
    c.anchor = Some(CursorPos { line: 0, col: 1 });
    c.cursor = CursorPos { line: 0, col: 3 };
    c.backspace();
    assert_eq!(c.doc.to_text(), "ad");
    assert_eq!(c.anchor, None);
}

#[test]
fn motion_tests_delete_forward_removes_next_char() {
    let mut c = core_with("abc");
    c.delete_forward();
    assert_eq!(c.doc.to_text(), "bc");
}

#[test]
fn motion_tests_motions_respect_logical_lines() {
    let mut c = core_with("abc\nx\nlonger\n");
    c.cursor = CursorPos { line: 0, col: 3 };
    c.apply_motion(Motion::Right, false, 20);
    assert_eq!(c.cursor, CursorPos { line: 1, col: 0 });

    c.apply_motion(Motion::End, false, 20);
    assert_eq!(c.cursor.col, 1);

    c.apply_motion(Motion::Down, false, 20);
    assert_eq!(c.cursor, CursorPos { line: 2, col: 1 });

    c.apply_motion(Motion::DocEnd, false, 20);
    assert_eq!(c.cursor, CursorPos { line: 3, col: 0 });
}

#[test]
fn motion_tests_undo_redo_roundtrip() {
    let mut c = core_with("");
    c.insert_str("第一版");
    c.insert_str("+第二版");
    assert!(c.undo());
    assert_eq!(c.doc.to_text(), "第一版");
    assert!(c.undo());
    assert_eq!(c.doc.to_text(), "");
    assert!(c.redo());
    assert_eq!(c.doc.to_text(), "第一版");
    assert!(c.redo());
    assert_eq!(c.doc.to_text(), "第一版+第二版");
    assert!(!c.redo());
}

#[test]
fn motion_tests_oversized_line_number_jump_clamps_to_last_line() {
    let mut c = core_with("l1\nl2\nl3");
    c.jump_to_line(usize::MAX);
    assert_eq!(c.cursor.line, 2, "超大行号应落到末行");
    c.jump_to_line(0);
    assert_eq!(c.cursor.line, 0);
    c.jump_to_line(2);
    assert_eq!(c.cursor.line, 1);

    let mut trailing = core_with("l1\nl2\n");
    trailing.jump_to_line(usize::MAX);
    assert_eq!(trailing.cursor.line, 2);
}

#[test]
fn motion_tests_single_line_document_edges_are_noops_not_panics() {
    let mut c = core_with("only");
    assert_eq!(c.doc.line_count(), 1);

    c.backspace();
    assert_eq!(c.doc.to_text(), "only");
    c.cursor = CursorPos { line: 0, col: 4 };
    c.delete_forward();
    assert_eq!(c.doc.to_text(), "only");

    c.apply_motion(Motion::DocEnd, false, 20);
    c.apply_motion(Motion::Right, false, 20);
    assert_eq!(c.cursor, CursorPos { line: 0, col: 4 });
    c.apply_motion(Motion::DocStart, false, 20);
    c.apply_motion(Motion::Left, false, 20);
    assert_eq!(c.cursor, CursorPos { line: 0, col: 0 });
}


#[test]
fn wrap_toggle_clears_block_and_rejects_block_select() {
    let mut c = core_with("aaaa\nbbbb\n");
    c.begin_block_select(CursorPos { line: 0, col: 1 });
    c.update_block_select(CursorPos { line: 1, col: 3 });
    assert!(c.active_block().is_some());
    assert!(c.block_dragging);
    // Turning wrap on clears the block.
    c.set_word_wrap(true);
    assert!(c.active_block().is_none());
    assert!(!c.block_dragging);
    // While wrap is on, a column block cannot start.
    c.begin_block_select(CursorPos { line: 0, col: 0 });
    assert!(c.active_block().is_none());
    assert!(!c.block_dragging);
    // Off again: it can.
    c.set_word_wrap(false);
    c.begin_block_select(CursorPos { line: 0, col: 0 });
    assert!(c.block_dragging);
    c.finish_block_select();
}

#[test]
fn max_line_cols_converges_after_shrinking_edits() {
    let mut c = core_with(&format!("{}\n短", "x".repeat(100)));
    assert!(c.max_line_display_cols() >= 100, "a long line raises the mark");
    c.cursor = CursorPos { line: 0, col: 100 };
    c.backspace();
    assert!(c.max_cols_stale, "a shrinking edit marks the mark stale");
    c.recompute_max_line_cols();
    assert_eq!(c.max_line_display_cols(), 99);
    c.cursor = CursorPos { line: 0, col: 99 };
    c.backspace();
    assert!(c.max_line_display_cols() >= 98, "the mark may run high until recomputed");
    c.recompute_max_line_cols();
    assert_eq!(c.max_line_display_cols(), 98);
    c.cursor = CursorPos { line: 0, col: 1 };
    c.select_all();
    c.replace_selection("短");
    c.recompute_max_line_cols();
    assert_eq!(c.max_line_display_cols(), 2, "a wide character is 2 columns");
    c.cursor = CursorPos { line: 0, col: 1 };
    c.insert_str(&"y".repeat(50));
    assert!(c.max_line_display_cols() >= 50, "typing raises the mark at once");
}
