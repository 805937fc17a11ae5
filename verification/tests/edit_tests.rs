use editpad::document::{Document, LineEnding};
use editpad::metrics::{display_cols, prefix_width, TAB_STOP_COLS};
use editpad::editor::{BlankKind, BlockSel, CaseKind, CursorPos, EditorCore, ImeCommit, Motion, SortOrder, TabSpaceKind, TrimMode};
use editpad::sampling::{rope_line_bodies, strip_newlines, XorShift64};

fn core_with(text: &str) -> EditorCore {
    let mut c = EditorCore::default();
    c.reset_document(Document::from_str(text));
    c
}

#[test]
fn edit_tests_ime_events_are_gated_by_focus() {
    let mut c = core_with("");
    assert!(c.focused, "默认持有焦点（正文是初始焦点控件）");

    assert!(c.ime_preedit("nihao".to_owned()));
    assert_eq!(c.preedit.as_deref(), Some("nihao"));
    assert_eq!(c.ime_commit("你好"), ImeCommit::Consumed(Some("你好".into())));
    assert_eq!(c.preedit, None, "上屏后预编辑串必须清掉");

    c.pointer_focus(false);
    assert!(!c.focused);
    assert!(!c.ime_preedit("pinyin".to_owned()), "未聚焦不得消费预编辑");
    assert_eq!(c.preedit, None);
    assert_eq!(c.ime_commit("字"), ImeCommit::Ignored, "未聚焦时上屏不得进正文");

    c.pointer_focus(true);
    assert!(c.ime_preedit("z".to_owned()));
}

#[test]
fn edit_tests_focus_loss_discards_stale_preedit_and_empty_commit_only_clears() {
    let mut c = core_with("");
    c.ime_preedit("wei".to_owned());

    c.pointer_focus(false);
    assert_eq!(c.preedit, None);

    c.pointer_focus(true);
    c.ime_preedit("x".to_owned());
    assert_eq!(c.ime_commit(""), ImeCommit::Consumed(None));
    assert_eq!(c.preedit, None);
    assert_eq!(c.doc.to_text(), "", "空提交不得改动文档");
}

#[test]
fn edit_tests_backspace_joins_crlf_lines_in_one_press() {
    let mut c = core_with("ab\r\ncd");
    c.cursor = CursorPos { line: 1, col: 0 };
    c.backspace();
    assert_eq!(c.doc.to_text(), "abcd", "一次退格必须删掉整个 \\r\\n");
    assert_eq!(c.cursor, CursorPos { line: 0, col: 2 });
    assert_eq!(c.line_display_len(0), 4, "并行后不得残留孤立 \\r");

    assert!(c.undo());
    assert_eq!(c.doc.to_text(), "ab\r\ncd");
}

#[test]
fn edit_tests_delete_forward_removes_crlf_in_one_press() {
    let mut c = core_with("ab\r\ncd");
    c.cursor = CursorPos { line: 0, col: 2 };
    c.delete_forward();
    assert_eq!(c.doc.to_text(), "abcd", "一次 Delete 必须删掉整个 \\r\\n");
    assert_eq!(c.cursor, CursorPos { line: 0, col: 2 });

    c.reset_document(Document::from_str("ab\r"));
    c.cursor = CursorPos { line: 0, col: 2 };
    c.delete_forward();
    assert_eq!(c.doc.to_text(), "ab", "孤立尾部 \\r 单字符删除");
}

#[test]
fn edit_tests_backspace_still_deletes_single_char_within_line() {
    let mut c = core_with("abc\r\ndef");
    c.cursor = CursorPos { line: 0, col: 3 };
    c.backspace();
    assert_eq!(c.doc.to_text(), "ab\r\ndef", "行内退格不得误删行尾 CRLF");
    assert_eq!(c.cursor, CursorPos { line: 0, col: 2 });
}

#[test]
fn backspace_and_delete_forward_report_whether_anything_was_deleted() {
    let mut c = core_with("abc");
    assert!(!c.backspace(), "文档原点退格是 no-op");
    assert_eq!(c.doc.to_text(), "abc");
    c.cursor = CursorPos { line: 0, col: 3 };
    assert!(!c.delete_forward(), "文档末尾前删是 no-op");
    assert_eq!(c.doc.to_text(), "abc");

    assert!(c.backspace(), "行内退格真实删除");
    assert_eq!(c.doc.to_text(), "ab");
    c.cursor = CursorPos { line: 0, col: 0 };
    assert!(c.delete_forward(), "行内前删真实删除");
    assert_eq!(c.doc.to_text(), "b");

    let mut s = core_with("abc");
    s.anchor = Some(CursorPos { line: 0, col: 0 });
    s.cursor = CursorPos { line: 0, col: 2 };
    assert!(s.backspace(), "选区删除真实生效");
    assert_eq!(s.doc.to_text(), "c");
}

#[test]
fn edit_tests_enter_and_paste_follow_dominant_line_ending() {
    let mut c = core_with("a\r\nb");
    c.cursor = CursorPos { line: 0, col: 1 };
    c.insert_str("\n");
    assert_eq!(c.doc.to_text(), "a\r\n\r\nb", "回车应插入主导行尾 CRLF");
    assert_eq!(c.cursor, CursorPos { line: 1, col: 0 });
    assert_eq!(c.doc.line_ending(), LineEnding::CrLf);

    c.insert_str("剪贴板\r\n来了\n多行");
    assert_eq!(
        c.doc.to_text(),
        "a\r\n剪贴板\r\n来了\r\n多行\r\nb",
        "粘贴的 LF/CRLF 应统一改写为主导行尾"
    );
    assert_eq!(c.cursor, CursorPos { line: 3, col: 2 }, "光标推进按 EOL 单元计列");

    let mut lf = core_with("");
    lf.insert_str("x\r\ny\rz");
    assert_eq!(lf.doc.to_text(), "x\ny\nz", "LF 文档把 CRLF/孤立 CR 归一为 LF");
    assert_eq!(lf.cursor, CursorPos { line: 2, col: 1 });

    let mut plain = core_with("plain");
    plain.cursor = CursorPos { line: 0, col: 5 };
    plain.insert_str("中文🚀");
    assert_eq!(plain.doc.to_text(), "plain中文🚀");
}

#[test]
fn edit_tests_crlf_document_keeps_eol_through_undo() {
    let mut c = core_with("l1\r\nl2\r\n");
    c.cursor = CursorPos { line: 1, col: 2 };
    c.insert_str("\n");
    assert_eq!(c.doc.to_text(), "l1\r\nl2\r\n\r\n", "行尾回车追加一个 CRLF");
    assert!(c.undo());
    assert_eq!(c.doc.to_text(), "l1\r\nl2\r\n", "撤销完整还原");
    assert_eq!(c.doc.line_ending(), LineEnding::CrLf, "快照携带同一行尾元数据");
}

#[test]
fn four_byte_emoji_survives_insert_and_undo() {
    let mut c = core_with("");
    c.insert_str("发射🚀!");
    assert_eq!(c.doc.to_text(), "发射🚀!");
    assert_eq!(c.doc.text_len(), 4, "an emoji is one scalar value");
    c.insert_str("\n更多🛰内容\n");
    assert!(c.undo());
    assert_eq!(c.doc.to_text(), "发射🚀!", "undo restores the text with the emoji");
}

#[test]
fn tab_widths_advance_to_next_tab_stop() {
    // 'a' is 1 column; the tab at column 1 advances to column 4; 'b' adds 1.
    assert_eq!(display_cols("a\tb"), 5);
    // A tab right on a stop still takes a whole cell ("abc\t" = 3 + 1).
    assert_eq!(display_cols("abc\td"), 5);
    assert_eq!(display_cols("\t"), TAB_STOP_COLS);

    // prefix_width takes the width of the first `i` characters.
    assert_eq!(prefix_width("a\tb", 1), 1, "only 'a'");
    assert_eq!(prefix_width("a\tb", 2), 4, "'a' and the tab reach the stop at 4");
    assert_eq!(prefix_width("a\tb", 3), 5, "then 'b'");

    // Monotone in the index (caret, selection and runs share this path).
    for i in 0..=4 {
        let a = prefix_width("a\tb", i);
        let b = prefix_width("a\tb", (i + 1).min(3));
        assert!(b >= a, "prefix width never shrinks");
    }
}
