use editpad::document::{Document, LineEnding};
use editpad::editor::{BlankKind, BlockSel, CaseKind, CursorPos, EditorCore, ImeCommit, Motion, SortOrder, TabSpaceKind, TrimMode};
use editpad::sampling::{rope_line_bodies, strip_newlines, XorShift64};

fn core_with(text: &str) -> EditorCore {
    let mut c = EditorCore::default();
    c.reset_document(Document::from_str(text));
    c
}

#[test]
fn editor_insert_advances_cursor_and_updates_lines() {
    let mut c = core_with("hello\nworld\n");
    c.cursor = CursorPos { line: 0, col: 5 };
    c.insert_str(",\neditpad");
    assert_eq!(c.doc.to_text(), "hello,\neditpad\nworld\n");
    assert_eq!(c.cursor, CursorPos { line: 1, col: 7 });
}

#[test]
fn editor_backspace_joins_lines_and_deletes_selection() {
    let mut c = core_with("ab\ncd\n");
    c.cursor = CursorPos { line: 1, col: 0 };
    c.backspace();
    assert_eq!(c.doc.to_text(), "abcd\n");
    assert_eq!(c.cursor, CursorPos { line: 0, col: 2 });

    c.reset_document(Document::from_str("abcd"));
    c.anchor = Some(CursorPos { line: 0, col: 1 });
    c.cursor = CursorPos { line: 0, col: 3 };
    c.backspace();
    assert_eq!(c.doc.to_text(), "ad");
    assert_eq!(c.anchor, None);
}

#[test]
fn editor_delete_forward_removes_next_char() {
    let mut c = core_with("abc");
    c.delete_forward();
    assert_eq!(c.doc.to_text(), "bc");
}

#[test]
fn editor_motions_respect_logical_lines() {
    let mut c = core_with("abc\nx\nlonger\n");
    c.cursor = CursorPos { line: 0, col: 3 };
    c.apply_motion(Motion::Right, false, 20);
    assert_eq!(c.cursor, CursorPos { line: 1, col: 0 });

    c.apply_motion(Motion::End, false, 20);
    assert_eq!(c.cursor.col, 1);

    c.apply_motion(Motion::Down, false, 20);
    assert_eq!(c.cursor, CursorPos { line: 2, col: 1 });

    c.apply_motion(Motion::DocEnd, false, 20);
    assert_eq!(c.cursor, CursorPos { line: 3, col: 0 });
}

#[test]
fn editor_undo_redo_roundtrip() {
    let mut c = core_with("");
    c.insert_str("第一版");
    c.insert_str("+第二版");
    assert!(c.undo());
    assert_eq!(c.doc.to_text(), "第一版");
    assert!(c.undo());
    assert_eq!(c.doc.to_text(), "");
    assert!(c.redo());
    assert_eq!(c.doc.to_text(), "第一版");
    assert!(c.redo());
    assert_eq!(c.doc.to_text(), "第一版+第二版");
    assert!(!c.redo());
}

#[test]
fn editor_select_span_and_replace_selection() {
    let mut c = core_with("你好世界");
    c.select_span(0, 1, 2);
    assert_eq!(c.selected_text().as_deref(), Some("好世"));
    c.replace_selection("-");
    assert_eq!(c.doc.to_text(), "你-界");
    assert_eq!(c.cursor, CursorPos { line: 0, col: 2 });
}

#[test]
fn editor_ime_events_are_gated_by_focus() {
    let mut c = core_with("");
    assert!(c.focused, "默认持有焦点（正文是初始焦点控件）");

    assert!(c.ime_preedit("nihao".to_owned()));
    assert_eq!(c.preedit.as_deref(), Some("nihao"));
    assert_eq!(c.ime_commit("你好"), ImeCommit::Consumed(Some("你好".into())));
    assert_eq!(c.preedit, None, "上屏后预编辑串必须清掉");

    c.pointer_focus(false);
    assert!(!c.focused);
    assert!(!c.ime_preedit("pinyin".to_owned()), "未聚焦不得消费预编辑");
    assert_eq!(c.preedit, None);
    assert_eq!(c.ime_commit("字"), ImeCommit::Ignored, "未聚焦时上屏不得进正文");

    c.pointer_focus(true);
    assert!(c.ime_preedit("z".to_owned()));
}

#[test]
fn editor_focus_loss_discards_stale_preedit_and_empty_commit_only_clears() {
    let mut c = core_with("");
    c.ime_preedit("wei".to_owned());

    c.pointer_focus(false);
    assert_eq!(c.preedit, None);

    c.pointer_focus(true);
    c.ime_preedit("x".to_owned());
    assert_eq!(c.ime_commit(""), ImeCommit::Consumed(None));
    assert_eq!(c.preedit, None);
    assert_eq!(c.doc.to_text(), "", "空提交不得改动文档");
}

#[test]
fn editor_backspace_joins_crlf_lines_in_one_press() {
    let mut c = core_with("ab\r\ncd");
    c.cursor = CursorPos { line: 1, col: 0 };
    c.backspace();
    assert_eq!(c.doc.to_text(), "abcd", "一次退格必须删掉整个 \\r\\n");
    assert_eq!(c.cursor, CursorPos { line: 0, col: 2 });
    assert_eq!(c.line_display_len(0), 4, "并行后不得残留孤立 \\r");

    assert!(c.undo());
    assert_eq!(c.doc.to_text(), "ab\r\ncd");
}

#[test]
fn editor_delete_forward_removes_crlf_in_one_press() {
    let mut c = core_with("ab\r\ncd");
    c.cursor = CursorPos { line: 0, col: 2 };
    c.delete_forward();
    assert_eq!(c.doc.to_text(), "abcd", "一次 Delete 必须删掉整个 \\r\\n");
    assert_eq!(c.cursor, CursorPos { line: 0, col: 2 });

    c.reset_document(Document::from_str("ab\r"));
    c.cursor = CursorPos { line: 0, col: 2 };
    c.delete_forward();
    assert_eq!(c.doc.to_text(), "ab", "孤立尾部 \\r 单字符删除");
}

#[test]
fn editor_backspace_still_deletes_single_char_within_line() {
    let mut c = core_with("abc\r\ndef");
    c.cursor = CursorPos { line: 0, col: 3 };
    c.backspace();
    assert_eq!(c.doc.to_text(), "ab\r\ndef", "行内退格不得误删行尾 CRLF");
    assert_eq!(c.cursor, CursorPos { line: 0, col: 2 });
}

#[test]
fn editor_enter_and_paste_follow_dominant_line_ending() {
    let mut c = core_with("a\r\nb");
    c.cursor = CursorPos { line: 0, col: 1 };
    c.insert_str("\n");
    assert_eq!(c.doc.to_text(), "a\r\n\r\nb", "回车应插入主导行尾 CRLF");
    assert_eq!(c.cursor, CursorPos { line: 1, col: 0 });
    assert_eq!(c.doc.line_ending(), LineEnding::CrLf);

    c.insert_str("剪贴板\r\n来了\n多行");
    assert_eq!(
        c.doc.to_text(),
        "a\r\n剪贴板\r\n来了\r\n多行\r\nb",
        "粘贴的 LF/CRLF 应统一改写为主导行尾"
    );
    assert_eq!(c.cursor, CursorPos { line: 3, col: 2 }, "光标推进按 EOL 单元计列");

    let mut lf = core_with("");
    lf.insert_str("x\r\ny\rz");
    assert_eq!(lf.doc.to_text(), "x\ny\nz", "LF 文档把 CRLF/孤立 CR 归一为 LF");
    assert_eq!(lf.cursor, CursorPos { line: 2, col: 1 });

    let mut plain = core_with("plain");
    plain.cursor = CursorPos { line: 0, col: 5 };
    plain.insert_str("中文🚀");
    assert_eq!(plain.doc.to_text(), "plain中文🚀");
}

#[test]
fn editor_crlf_document_keeps_eol_through_undo() {
    let mut c = core_with("l1\r\nl2\r\n");
    c.cursor = CursorPos { line: 1, col: 2 };
    c.insert_str("\n");
    assert_eq!(c.doc.to_text(), "l1\r\nl2\r\n\r\n", "行尾回车追加一个 CRLF");
    assert!(c.undo());
    assert_eq!(c.doc.to_text(), "l1\r\nl2\r\n", "撤销完整还原");
    assert_eq!(c.doc.line_ending(), LineEnding::CrLf, "快照携带同一行尾元数据");
}

#[test]
fn editor_oversized_line_number_jump_clamps_to_last_line() {
    let mut c = core_with("l1\nl2\nl3");
    c.jump_to_line(usize::MAX);
    assert_eq!(c.cursor.line, 2, "超大行号应落到末行");
    c.jump_to_line(0);
    assert_eq!(c.cursor.line, 0);
    c.jump_to_line(2);
    assert_eq!(c.cursor.line, 1);

    let mut trailing = core_with("l1\nl2\n");
    trailing.jump_to_line(usize::MAX);
    assert_eq!(trailing.cursor.line, 2);
}

#[test]
fn editor_single_line_document_edges_are_noops_not_panics() {
    let mut c = core_with("only");
    assert_eq!(c.doc.line_count(), 1);

    c.backspace();
    assert_eq!(c.doc.to_text(), "only");
    c.cursor = CursorPos { line: 0, col: 4 };
    c.delete_forward();
    assert_eq!(c.doc.to_text(), "only");

    c.apply_motion(Motion::DocEnd, false, 20);
    c.apply_motion(Motion::Right, false, 20);
    assert_eq!(c.cursor, CursorPos { line: 0, col: 4 });
    c.apply_motion(Motion::DocStart, false, 20);
    c.apply_motion(Motion::Left, false, 20);
    assert_eq!(c.cursor, CursorPos { line: 0, col: 0 });
}

