use editpad::document::{Document, LineEnding};
use editpad::editor::{BlankKind, BlockSel, CaseKind, CursorPos, EditorCore, Motion, SortOrder, TrimMode};
use editpad::numbering::{sequence_lines, NumBase};

fn core_with(text: &str) -> EditorCore {
    let mut c = EditorCore::default();
    c.reset_document(Document::from_str(text));
    c
}

#[test]
fn delete_current_line_removes_whole_line_and_is_undoable() {
    let mut c = core_with("alpha\nbeta\ngamma");
    c.cursor = CursorPos { line: 1, col: 2 };
    assert!(c.delete_current_lines());
    assert_eq!(c.doc.to_text(), "alpha\ngamma");
    assert_eq!(c.cursor, CursorPos { line: 1, col: 0 }, "光标落到删除起点");
    assert!(c.undo(), "行删除必须可撤销");
    assert_eq!(c.doc.to_text(), "alpha\nbeta\ngamma");
}

#[test]
fn delete_current_line_handles_crlf_tail_and_phantom_last_line() {
    let mut c = core_with("a\r\nb\r\nc");
    c.cursor = CursorPos { line: 0, col: 0 };
    assert!(c.delete_current_lines());
    assert_eq!(c.doc.to_text(), "b\r\nc");
    c.cursor = CursorPos { line: 1, col: 1 };
    assert!(c.delete_current_lines());
    assert_eq!(c.doc.to_text(), "b\r\n");
    assert!(c.delete_current_lines());
    assert_eq!(c.doc.to_text(), "b");
    assert!(c.delete_current_lines());
    assert_eq!(c.doc.to_text(), "");
}

#[test]
fn delete_on_empty_document_is_noop() {
    let mut c = core_with("");
    assert!(!c.delete_current_lines());
    assert_eq!(c.doc.to_text(), "");
}

#[test]
fn delete_current_line_on_single_newline_document_no_underflow() {
    let mut c = core_with("\n");
    c.cursor = CursorPos { line: 1, col: 0 };
    assert!(c.delete_current_lines());
    assert_eq!(c.doc.to_text(), "");
    assert_eq!(c.cursor, CursorPos { line: 0, col: 0 }, "光标归零");
    assert!(c.undo(), "必须可撤销");
    assert_eq!(c.doc.to_text(), "\n");
    let mut d = core_with("\r");
    d.cursor = CursorPos { line: 1, col: 0 };
    assert!(d.delete_current_lines());
    assert_eq!(d.doc.to_text(), "");
}

#[test]
fn delete_selection_spans_lines_and_col0_end_excludes_last_line() {
    let mut c = core_with("l1\nl2\nl3\nl4");
    c.anchor = Some(CursorPos { line: 0, col: 2 });
    c.cursor = CursorPos { line: 2, col: 0 };
    assert!(c.delete_current_lines());
    assert_eq!(c.doc.to_text(), "l3\nl4");
}

#[test]
fn duplicate_line_inserts_copy_below_and_is_undoable() {
    let mut c = core_with("one\ntwo");
    c.cursor = CursorPos { line: 0, col: 3 };
    assert!(c.duplicate_current_lines());
    assert_eq!(c.doc.to_text(), "one\none\ntwo");
    assert_eq!(c.cursor.line, 1, "光标落到副本首行");
    assert!(c.undo());
    assert_eq!(c.doc.to_text(), "one\ntwo");
}

#[test]
fn duplicate_tail_line_without_newline_terminates_copy_properly() {
    let mut c = core_with("one\ntail");
    c.cursor = CursorPos { line: 1, col: 1 };
    assert!(c.duplicate_current_lines());
    assert_eq!(c.doc.to_text(), "one\ntail\ntail");
    let mut empty = core_with("");
    assert!(!empty.duplicate_current_lines());
}

#[test]
fn duplicate_last_real_line_of_trailing_newline_doc_no_blank_line() {
    let mut c = core_with("one\ntwo\n");
    c.cursor = CursorPos { line: 1, col: 0 };
    assert!(c.duplicate_current_lines());
    assert_eq!(c.doc.to_text(), "one\ntwo\ntwo\n");
    assert_eq!(c.cursor.line, 2, "光标落到副本首行");
    assert!(c.undo());
    assert_eq!(c.doc.to_text(), "one\ntwo\n");
    let mut d = core_with("x\n\n");
    d.cursor = CursorPos { line: 1, col: 0 };
    assert!(d.duplicate_current_lines());
    assert_eq!(d.doc.to_text(), "x\n\n\n");
}

#[test]
fn move_line_swaps_with_neighbor_respects_boundaries_and_undo() {
    let mut c = core_with("a\nb\nc");
    c.cursor = CursorPos { line: 1, col: 0 };
    assert!(c.move_current_lines(true));
    assert_eq!(c.doc.to_text(), "b\na\nc");
    assert_eq!(c.cursor.line, 0);
    assert!(!c.move_current_lines(true), "已在顶行不得再动");
    assert!(c.move_current_lines(false));
    assert_eq!(c.doc.to_text(), "a\nb\nc");
    assert!(c.move_current_lines(false));
    assert_eq!(c.doc.to_text(), "a\nc\nb");
    assert!(!c.move_current_lines(false), "已在底行不得再动");
    assert!(c.undo());
    assert_eq!(c.doc.to_text(), "a\nb\nc");
}

#[test]
fn move_multi_line_block_rotates_as_a_unit_preserving_order() {
    let mut c = core_with("p\nq1\nq2\nr");
    c.anchor = Some(CursorPos { line: 1, col: 0 });
    c.cursor = CursorPos { line: 2, col: 1 };
    assert!(c.move_current_lines(true));
    assert_eq!(c.doc.to_text(), "q1\nq2\np\nr", "上移=整块与上一行换位");
    assert!(c.undo());
    assert!(c.move_current_lines(false));
    assert_eq!(c.doc.to_text(), "p\nr\nq1\nq2", "下移=整块与下一行换位");
}

#[test]
fn move_line_rebuilds_with_dominant_crlf_and_keeps_col() {
    let mut c = core_with("abcdef\r\nsecond\r\nc");
    c.cursor = CursorPos { line: 0, col: 3 };
    assert!(c.move_current_lines(false));
    assert_eq!(
        c.doc.to_text(),
        "second\r\nabcdef\r\nc",
        "CRLF 文档换位不产生混合行尾"
    );
    assert_eq!(c.cursor, CursorPos { line: 1, col: 3 }, "光标列尽量保持");
}

#[test]
fn convert_case_selection_scoped_and_crlf_preserved() {
    let mut c = core_with("abc\r\nDef G");
    c.anchor = Some(CursorPos { line: 0, col: 2 });
    c.cursor = CursorPos { line: 1, col: 3 };
    assert!(c.convert_case(CaseKind::Upper));
    assert_eq!(c.doc.to_text(), "abC\r\nDEF G");
    assert_eq!(c.doc.line_ending(), LineEnding::CrLf, "主导行尾元数据不变");
    assert_eq!(c.anchor, Some(CursorPos { line: 0, col: 2 }));
    assert_eq!(
        c.cursor,
        CursorPos { line: 1, col: 3 },
        "终点=新文本结束处（'DEF'后）"
    );
    assert!(c.undo());
    assert_eq!(c.doc.to_text(), "abc\r\nDef G");
}

#[test]
fn convert_case_without_selection_transforms_whole_document_idempotent_no_snapshot() {
    let mut c = core_with("abc\n123 中文\nx");
    c.cursor = CursorPos { line: 1, col: 1 };
    let depth = c.undo_stack.len();
    assert!(c.convert_case(CaseKind::Upper));
    assert_eq!(
        c.doc.to_text(),
        "ABC\n123 中文\nX",
        "数字/CJK 不参与大小写映射"
    );
    assert_eq!(c.cursor, CursorPos { line: 1, col: 1 }, "光标行列尽量保持");
    assert!(!c.convert_case(CaseKind::Upper));
    assert_eq!(c.undo_stack.len(), depth + 1, "幂等调用不产生撤销快照");
    assert!(c.undo());
    assert_eq!(c.doc.to_text(), "abc\n123 中文\nx");
}

#[test]
fn convert_case_expanding_mapping_keeps_selection_over_result_and_undo_exact() {
    let mut c = core_with("aß b");
    c.anchor = Some(CursorPos { line: 0, col: 0 });
    c.cursor = CursorPos { line: 0, col: 2 };
    assert!(c.convert_case(CaseKind::Upper));
    assert_eq!(c.doc.to_text(), "ASS b");
    assert_eq!(
        c.cursor,
        CursorPos { line: 0, col: 3 },
        "终点按 SS 新长度落位"
    );
    assert!(c.undo());
    assert_eq!(c.doc.to_text(), "aß b", "加长映射撤销后逐字节还原");
    let mut t = core_with("İX");
    assert!(t.convert_case(CaseKind::Lower));
    assert_eq!(t.doc.to_text(), "i\u{307}x");
    assert_eq!(t.doc.line_count(), 1);
}

#[test]
fn trim_modes_strip_unicode_whitespace_on_whole_document() {
    let mut c = core_with("\u{3000}a b\u{a0}\r\n\t中 文  \r\n  尾无行尾 ");
    assert!(c.trim_touched_lines(TrimMode::Trailing));
    assert_eq!(
        c.doc.to_text(),
        "\u{3000}a b\r\n\t中 文\r\n  尾无行尾",
        "去尾不动行首；文档末行无行尾的形态保持"
    );
    let mut c2 = core_with("  x\ty\r\n\t\tz  \n W");
    assert!(c2.trim_touched_lines(TrimMode::Leading));
    assert_eq!(c2.doc.to_text(), "x\ty\nz  \nW");
    let mut c3 = core_with("  a  \r\n\tb\t");
    assert!(c3.trim_touched_lines(TrimMode::Both));
    assert_eq!(c3.doc.to_text(), "a\r\nb");
}

#[test]
fn trim_selection_scope_only_touched_lines() {
    let mut c = core_with("  a\r\n  b\r\n  c");
    c.anchor = Some(CursorPos { line: 0, col: 0 });
    c.cursor = CursorPos { line: 1, col: 2 };
    assert!(c.trim_touched_lines(TrimMode::Leading));
    assert_eq!(c.doc.to_text(), "a\r\nb\r\n  c");
}

#[test]
fn trim_noop_empty_and_phantom_edge_cases() {
    let mut c = core_with("");
    assert!(!c.trim_touched_lines(TrimMode::Both));
    let mut d = core_with("clean\r\ntoo");
    let depth = d.undo_stack.len();
    assert!(!d.trim_touched_lines(TrimMode::Both));
    assert_eq!(d.undo_stack.len(), depth, "幂等调用不产生撤销快照");
    let mut e = core_with("x  \r\n");
    assert!(e.trim_touched_lines(TrimMode::Trailing));
    assert_eq!(e.doc.to_text(), "x\r\n");
    assert!(e.undo());
    assert_eq!(e.doc.to_text(), "x  \r\n");
}

#[test]
fn sort_lines_whole_document_both_directions_and_undo() {
    let mut c = core_with("pear\napple\nBanana");
    let depth = c.undo_stack.len();
    assert!(c.sort_lines(SortOrder::Ascending));
    assert_eq!(c.doc.to_text(), "Banana\napple\npear");
    assert_eq!(c.doc.line_count(), 3, "行数不变");
    c.cursor = CursorPos { line: 0, col: 1 };
    assert!(c.sort_lines(SortOrder::Descending));
    assert_eq!(
        c.doc.to_text(),
        "pear\napple\nBanana",
        "对已升序文档降序=精确倒转"
    );
    assert_eq!(
        c.cursor,
        CursorPos { line: 0, col: 1 },
        "光标按索引钳回触及块内、列尽量保持"
    );
    assert!(c.undo());
    assert_eq!(c.doc.to_text(), "Banana\napple\npear");
    assert!(c.undo());
    assert_eq!(c.doc.to_text(), "pear\napple\nBanana");
    assert_eq!(c.undo_stack.len(), depth);
}

#[test]
fn sort_lines_already_sorted_is_idempotent_no_snapshot() {
    let mut c = core_with("a\nb\nc");
    let depth = c.undo_stack.len();
    assert!(!c.sort_lines(SortOrder::Ascending), "已升序不得重复产快照");
    assert_eq!(c.undo_stack.len(), depth);
    let mut one = core_with("solo");
    assert!(!one.sort_lines(SortOrder::Descending));
    let mut empty = core_with("");
    assert!(!empty.sort_lines(SortOrder::Ascending));
    let mut blank = core_with("\n");
    assert!(!blank.sort_lines(SortOrder::Ascending));
    assert_eq!(blank.doc.to_text(), "\n", "纯幻影文档原样保留");
}

#[test]
fn sort_lines_selection_scope_excludes_outside_lines() {
    let mut c = core_with("zeta\nalpha\nmid\nbeta\nlast");
    c.anchor = Some(CursorPos { line: 1, col: 0 });
    c.cursor = CursorPos { line: 3, col: 2 };
    assert!(c.sort_lines(SortOrder::Ascending));
    assert_eq!(c.doc.to_text(), "zeta\nalpha\nbeta\nmid\nlast");
}

#[test]
fn sort_lines_preserves_trailing_shape_and_rebuilds_dominant_eol() {
    let mut c = core_with("b\r\n\r\na\r\n");
    assert!(c.sort_lines(SortOrder::Ascending));
    assert_eq!(
        c.doc.to_text(),
        "\r\na\r\nb\r\n",
        "空行为真实内容排到最前，尾随换行形态保持"
    );
    let mut e = core_with("a\nzz\nb");
    assert!(e.sort_lines(SortOrder::Descending));
    assert_eq!(e.doc.to_text(), "zz\nb\na", "末行无换行的形态保持");
    let mut f = core_with("b\r\nA\na\r\n");
    assert!(f.sort_lines(SortOrder::Ascending));
    assert_eq!(
        f.doc.to_text(),
        "A\r\na\r\nb\r\n",
        "混合行尾统一为主导 CRLF"
    );
    assert_eq!(f.doc.line_ending(), LineEnding::CrLf);
}

#[test]
fn sort_orders_by_codepoint_including_emoji_and_cjk() {
    let mut c = core_with("😀\n中\nA\na");
    assert!(c.sort_lines(SortOrder::Ascending));
    assert_eq!(c.doc.to_text(), "A\na\n中\n😀");
    assert!(c.sort_lines(SortOrder::Descending));
    assert_eq!(c.doc.to_text(), "😀\n中\na\nA");
}

#[test]
fn dedupe_keeps_first_occurrence_preserving_order_and_undo() {
    let mut c = core_with("b\na\nb\nc\na\nb");
    let depth = c.undo_stack.len();
    assert!(c.remove_duplicate_lines());
    assert_eq!(c.doc.to_text(), "b\na\nc", "保留首次出现，其余相对次序不变");
    assert_eq!(c.cursor.line, 0, "光标钳回块内");
    assert_eq!(c.undo_stack.len(), depth + 1, "单次去重只产一个快照");
    assert!(c.undo());
    assert_eq!(c.doc.to_text(), "b\na\nb\nc\na\nb");
    assert_eq!(c.undo_stack.len(), depth, "撤销后栈深回落");
    let mut d = core_with("x\nx");
    assert!(d.remove_duplicate_lines());
    assert_eq!(d.doc.to_text(), "x");
}

#[test]
fn dedupe_selection_scope_and_crlf_rebuild() {
    let mut c = core_with("keep\r\nDUP\r\nDUP\r\nDUP\r\nkeep2");
    c.anchor = Some(CursorPos { line: 1, col: 1 });
    c.cursor = CursorPos { line: 3, col: 1 };
    assert!(c.remove_duplicate_lines());
    assert_eq!(
        c.doc.to_text(),
        "keep\r\nDUP\r\nkeep2",
        "范围外行不波及，CRLF 整单元重建"
    );
    assert_eq!(c.doc.line_ending(), LineEnding::CrLf, "主导行尾元数据不变");
}

#[test]
fn dedupe_noop_unique_or_single_line_no_snapshot() {
    let mut c = core_with("one\ntwo\nthree");
    let depth = c.undo_stack.len();
    assert!(!c.remove_duplicate_lines(), "无重复不得产快照");
    assert_eq!(c.undo_stack.len(), depth);
    let mut one = core_with("only");
    assert!(!one.remove_duplicate_lines());
    let mut empty = core_with("");
    assert!(!empty.remove_duplicate_lines());
}

#[test]
fn sort_dedupe_on_phantom_line_selection_is_safe_noop() {
    let mut c = core_with("a\n");
    c.cursor = CursorPos { line: 1, col: 0 };
    assert!(!c.sort_lines(SortOrder::Ascending));
    assert!(!c.remove_duplicate_lines());
    assert_eq!(c.doc.to_text(), "a\n", "文档原样保留");
    let mut d = core_with("x\ny\n");
    d.anchor = Some(CursorPos { line: 1, col: 0 });
    d.cursor = CursorPos { line: 2, col: 0 };
    assert!(!d.sort_lines(SortOrder::Descending));
    assert!(!d.remove_duplicate_lines());
    assert_eq!(d.doc.to_text(), "x\ny\n");
}

#[test]
fn lone_carriage_return_is_a_line_break_in_ropey_terms() {
    let mut c = core_with("c\r\nb\r\na\r");
    assert_eq!(c.doc.line_count(), 4, "孤立 \\r 是换行：其后是幻影空行");
    assert!(c.sort_lines(SortOrder::Ascending));
    assert_eq!(
        c.doc.to_text(),
        "a\r\nb\r\nc\r\n",
        "幻影不参与排序，尾随换行保持"
    );
    let mut d = core_with("p\r\nq\r\nz\r");
    d.cursor = CursorPos { line: 2, col: 0 };
    assert!(d.move_current_lines(true));
    assert_eq!(
        d.doc.to_text(),
        "p\r\nz\r\nq",
        "末行以孤立 \\r 收尾=有行尾的普通行"
    );
    let mut e = core_with(" x\nabc\r");
    assert!(e.trim_touched_lines(TrimMode::Leading));
    assert_eq!(e.doc.to_text(), "x\nabc\n");
    let mut f = core_with("dup\r\nx\r\ndup");
    assert!(f.remove_duplicate_lines());
    assert_eq!(f.doc.to_text(), "dup\r\nx", "去重同样逐字节保留行内容");
}

#[test]
fn bookmark_toggle_and_query_basics() {
    let mut c = core_with("alpha\nbeta\ngamma\n");
    c.cursor = CursorPos { line: 1, col: 0 };
    assert!(c.toggle_bookmark());
    assert!(c.is_bookmarked(1));
    assert_eq!(c.bookmarked_lines(), vec![1]);
    assert!(!c.toggle_bookmark());
    assert!(!c.is_bookmarked(1));
    assert!(c.bookmarked_lines().is_empty());
    c.cursor = CursorPos { line: 2, col: 0 };
    c.toggle_bookmark();
    c.cursor = CursorPos { line: 0, col: 0 };
    c.toggle_bookmark();
    assert_eq!(c.bookmarked_lines(), vec![0, 2]);
}

#[test]
fn bookmark_next_prev_wrap_and_stay() {
    let mut c = core_with("l0\nl1\nl2\nl3\nl4\n");
    assert!(!c.next_bookmark(true));
    assert_eq!(c.cursor.line, 0);
    c.cursor = CursorPos { line: 1, col: 3 };
    c.toggle_bookmark(); // bm {1}
    c.cursor = CursorPos { line: 3, col: 0 };
    c.toggle_bookmark(); // bm {1,3}
    assert!(c.next_bookmark(true));
    assert_eq!(c.cursor.line, 1);
    assert_eq!(c.cursor.col, 0, "跳转落行首");
    assert!(c.anchor.is_none());
    assert!(c.next_bookmark(true));
    assert_eq!(c.cursor.line, 3);
    assert!(c.next_bookmark(false));
    assert_eq!(c.cursor.line, 1);
    assert!(c.next_bookmark(false));
    assert_eq!(c.cursor.line, 3);
    c.clear_bookmarks();
    c.cursor = CursorPos { line: 2, col: 1 };
    c.toggle_bookmark();
    assert!(!c.next_bookmark(true));
    assert_eq!(c.cursor.line, 2);
    assert!(!c.next_bookmark(false));
    assert_eq!(c.cursor.line, 2);
    assert!(c.clear_bookmarks());
    assert!(!c.next_bookmark(true));
    assert!(!c.clear_bookmarks());
}

#[test]
fn bookmark_toggle_enters_undo_history() {
    let mut c = core_with("a\nb\n");
    c.cursor = CursorPos { line: 0, col: 0 };
    c.toggle_bookmark();
    c.insert_str("x");
    c.cursor = CursorPos { line: 1, col: 0 };
    c.toggle_bookmark();
    assert_eq!(c.bookmarked_lines(), vec![0, 1]);
    c.undo();
    assert_eq!(c.bookmarked_lines(), vec![0]);
    c.undo();
    assert_eq!(c.bookmarked_lines(), vec![0]);
    assert_eq!(c.doc.to_text(), "a\nb\n");
    c.undo();
    assert!(c.bookmarked_lines().is_empty());
    assert!(!c.undo(), "撤销栈已空");
}

#[test]
fn copy_marked_lines_order_dominant_eol_and_trailing_newline() {
    let mut c = core_with("one\r\ntwo\r\nthree\r\n");
    c.cursor = CursorPos { line: 2, col: 0 };
    c.toggle_bookmark();
    c.cursor = CursorPos { line: 0, col: 0 };
    c.toggle_bookmark();
    assert_eq!(c.copy_bookmarked_lines().unwrap(), "one\r\nthree\r\n");
    let mut d = core_with("🦀\n中\nx\n");
    d.cursor = CursorPos { line: 1, col: 0 };
    d.toggle_bookmark();
    assert_eq!(d.copy_bookmarked_lines().unwrap(), "中\n");
    assert!(core_with("a\n").copy_bookmarked_lines().is_none());
    let mut e = core_with("");
    e.toggle_bookmark();
    assert_eq!(e.copy_bookmarked_lines().unwrap(), "\n");
}

#[test]
fn remove_marked_lines_disjoint_runs_and_undo_restores() {
    let mut c = core_with("a\nb\nc\nd\ne\nf\n");
    c.cursor = CursorPos { line: 1, col: 0 };
    c.toggle_bookmark(); // 1
    c.cursor = CursorPos { line: 3, col: 0 };
    c.toggle_bookmark();
    c.cursor = CursorPos { line: 4, col: 0 };
    c.toggle_bookmark(); // bm {1,3,4}
    assert!(c.remove_bookmarked_lines());
    assert_eq!(c.doc.to_text(), "a\nc\nf\n", "不连续段整段删除");
    assert!(c.bookmarked_lines().is_empty(), "被删的正是全部书签行");
    assert_eq!(c.cursor.line, 1, "光标落在首个被删段起点");
    assert!(c.undo());
    assert_eq!(c.doc.to_text(), "a\nb\nc\nd\ne\nf\n");
    assert_eq!(c.bookmarked_lines(), vec![1, 3, 4]);
    assert!(c.clear_bookmarks());
    let depth = c.undo_stack.len();
    assert!(!c.remove_bookmarked_lines());
    assert_eq!(c.undo_stack.len(), depth, "no-op 不得入栈");
}

#[test]
fn remove_marked_lines_crlf_last_real_line_and_phantom() {
    let mut c = core_with("1\r\n2\r\n3\r\n");
    c.cursor = CursorPos { line: 2, col: 0 };
    c.toggle_bookmark();
    assert!(c.remove_bookmarked_lines());
    assert_eq!(c.doc.to_text(), "1\r\n2\r\n");
    let mut d = core_with("x\ny\n");
    d.cursor = CursorPos { line: 2, col: 0 };
    d.toggle_bookmark();
    assert!(d.remove_bookmarked_lines());
    assert_eq!(d.doc.to_text(), "x\ny");
    let mut e = core_with("");
    e.toggle_bookmark();
    assert!(!e.remove_bookmarked_lines());
    assert_eq!(e.doc.to_text(), "");
    let mut f = core_with("\n");
    f.cursor = CursorPos { line: 1, col: 0 };
    f.toggle_bookmark();
    assert!(f.remove_bookmarked_lines());
    assert_eq!(f.doc.to_text(), "");
}

#[test]
fn bookmark_remap_on_typing_newlines_and_selection_replace() {
    let mut c = core_with("a\nb\nc\n");
    c.cursor = CursorPos { line: 1, col: 0 };
    c.toggle_bookmark(); // bm{1}
    c.cursor = CursorPos { line: 0, col: 0 };
    c.insert_str("x\n");
    assert_eq!(c.doc.to_text(), "x\na\nb\nc\n");
    assert_eq!(c.bookmarked_lines(), vec![2]);
    c.cursor = CursorPos { line: 4, col: 0 };
    c.insert_str("\n");
    assert_eq!(c.bookmarked_lines(), vec![2]);
    let mut d = core_with("r0\nr1\nr2\nr3\nr4\n");
    d.cursor = CursorPos { line: 1, col: 0 };
    d.toggle_bookmark();
    d.cursor = CursorPos { line: 3, col: 0 };
    d.toggle_bookmark();
    d.cursor = CursorPos { line: 1, col: 0 };
    d.anchor = Some(CursorPos { line: 3, col: 1 });
    d.insert_str("Z");
    assert_eq!(d.doc.to_text(), "r0\nZ3\nr4\n");
    assert_eq!(
        d.bookmarked_lines(),
        vec![1],
        "r3 的书签并入结果行，r1 的随内容消失"
    );
    let mut e = core_with("r0\nr1\nr2\nr3\nr4\n");
    e.cursor = CursorPos { line: 1, col: 0 };
    e.toggle_bookmark(); // r1
    e.cursor = CursorPos { line: 3, col: 0 };
    e.toggle_bookmark(); // r3
    e.cursor = CursorPos { line: 1, col: 0 };
    e.anchor = Some(CursorPos { line: 3, col: 0 });
    e.insert_str("Z");
    assert_eq!(e.doc.to_text(), "r0\nZr3\nr4\n");
    assert_eq!(
        e.bookmarked_lines(),
        vec![1],
        "r3 整行并入结果行 → 书签并入行1；r1 随内容消失"
    );
}

#[test]
fn bookmark_remap_on_line_suite_ops() {
    let mut c = core_with("0\n1\n2\n3\n4\n");
    c.cursor = CursorPos { line: 1, col: 0 };
    c.toggle_bookmark();
    c.cursor = CursorPos { line: 4, col: 0 };
    c.toggle_bookmark(); // bm{1,4}
    c.cursor = CursorPos { line: 0, col: 0 };
    c.anchor = Some(CursorPos { line: 2, col: 1 });
    assert!(c.delete_current_lines());
    assert_eq!(c.doc.to_text(), "3\n4\n");
    assert_eq!(
        c.bookmarked_lines(),
        vec![1],
        "行1 书签随行消失，行4 上移到行1"
    );
    let mut d = core_with("a\nb\nc\n");
    d.cursor = CursorPos { line: 0, col: 0 };
    d.toggle_bookmark();
    d.cursor = CursorPos { line: 2, col: 0 };
    d.toggle_bookmark(); // bm{0,2}
    assert!(d.duplicate_current_lines());
    assert_eq!(d.doc.to_text(), "a\nb\nc\nc\n");
    assert_eq!(d.bookmarked_lines(), vec![0, 2], "副本不带书签");
    let mut e = core_with("p\nq\nr\ns\n");
    e.cursor = CursorPos { line: 2, col: 0 };
    e.toggle_bookmark();
    e.cursor = CursorPos { line: 1, col: 0 };
    assert!(e.move_current_lines(false));
    assert_eq!(e.doc.to_text(), "p\nr\nq\ns\n");
    assert_eq!(e.bookmarked_lines(), vec![1], "r 的书签随内容上移");
    assert!(e.move_current_lines(true));
    assert_eq!(e.doc.to_text(), "p\nq\nr\ns\n");
    assert_eq!(e.bookmarked_lines(), vec![2]);
    let mut f = core_with("p\nq\nr\n");
    f.cursor = CursorPos { line: 0, col: 0 };
    f.toggle_bookmark();
    f.cursor = CursorPos { line: 1, col: 0 };
    assert!(f.move_current_lines(true));
    assert_eq!(f.doc.to_text(), "q\np\nr\n");
    assert_eq!(f.bookmarked_lines(), vec![1], "p 的书签随内容下移");
}

#[test]
fn bookmark_remap_on_sort_and_dedup() {
    let mut c = core_with("c\na\nb\n");
    c.cursor = CursorPos { line: 0, col: 0 };
    c.toggle_bookmark();
    assert!(c.sort_lines(SortOrder::Ascending));
    assert_eq!(c.doc.to_text(), "a\nb\nc\n");
    assert_eq!(c.bookmarked_lines(), vec![2], "书签跟着 c 行走");
    assert!(c.sort_lines(SortOrder::Descending));
    assert_eq!(c.doc.to_text(), "c\nb\na\n");
    assert_eq!(c.bookmarked_lines(), vec![0]);
    let mut d = core_with("x\ny\nx\nx\n");
    d.cursor = CursorPos { line: 2, col: 0 };
    d.toggle_bookmark();
    assert!(d.remove_duplicate_lines());
    assert_eq!(d.doc.to_text(), "x\ny\n");
    assert!(d.bookmarked_lines().is_empty(), "重复项书签随行丢弃");
    let mut e = core_with("x\ny\nx\n");
    e.cursor = CursorPos { line: 0, col: 0 };
    e.toggle_bookmark();
    assert!(e.remove_duplicate_lines());
    assert_eq!(e.doc.to_text(), "x\ny\n");
    assert_eq!(e.bookmarked_lines(), vec![0], "保留项书签原位");
    let mut f = core_with("b\na\n");
    f.cursor = CursorPos { line: 2, col: 0 };
    f.toggle_bookmark();
    assert!(f.sort_lines(SortOrder::Ascending));
    assert_eq!(f.doc.to_text(), "a\nb\n");
    assert_eq!(f.bookmarked_lines(), vec![2], "幻影行号恒不变");
}

#[test]
fn bookmark_remap_on_merge_ops_and_replace_all() {
    let mut c = core_with("a\nb\n");
    c.cursor = CursorPos { line: 0, col: 0 };
    c.toggle_bookmark();
    c.cursor = CursorPos { line: 1, col: 0 };
    c.toggle_bookmark(); // bm{0,1}
    c.cursor = CursorPos { line: 1, col: 0 };
    c.backspace();
    assert_eq!(c.doc.to_text(), "ab\n", "b 并上行 a，幻影末行保持");
    assert_eq!(c.bookmarked_lines(), vec![0], "并集落在幸存行");
    let mut d = core_with("a\nb\n");
    d.cursor = CursorPos { line: 0, col: 1 };
    d.toggle_bookmark();
    d.delete_forward();
    assert_eq!(d.doc.to_text(), "ab\n");
    assert_eq!(d.bookmarked_lines(), vec![0]);
    let mut e = core_with("ab\ncd\n");
    e.cursor = CursorPos { line: 1, col: 0 };
    e.toggle_bookmark();
    e.cursor = CursorPos { line: 0, col: 0 };
    e.delete_forward();
    assert_eq!(e.doc.to_text(), "b\ncd\n");
    assert_eq!(e.bookmarked_lines(), vec![1]);
    let mut f = core_with("a\nb\n");
    f.cursor = CursorPos { line: 1, col: 0 };
    f.toggle_bookmark();
    f.replace_whole_document(Document::from_str("zz\n"));
    assert!(f.bookmarked_lines().is_empty());
    assert!(f.undo());
    assert_eq!(f.bookmarked_lines(), vec![1], "撤销找回整体替换前的书签");
    let mut g = core_with("a\nb\n");
    g.cursor = CursorPos { line: 1, col: 0 };
    g.toggle_bookmark();
    g.reset_document(Document::from_str("q\n"));
    assert!(g.bookmarked_lines().is_empty());
}

#[test]
fn merge_lines_block_next_line_and_phantom() {
    let mut c = core_with("alpha\n beta \n\ngamma\ndelta\n");
    c.anchor = Some(CursorPos { line: 0, col: 0 });
    c.cursor = CursorPos { line: 2, col: 1 };
    assert!(c.merge_lines());
    assert_eq!(c.doc.to_text(), "alpha beta\ngamma\ndelta\n");
    let mut d = core_with("one\ntwo\nthree");
    d.cursor = CursorPos { line: 1, col: 1 };
    assert!(d.merge_lines());
    assert_eq!(d.doc.to_text(), "one\ntwo three");
    assert!(!d.merge_lines(), "末行没有下一行可并");
    let mut e = core_with("x\ny\n");
    e.anchor = Some(CursorPos { line: 0, col: 0 });
    e.cursor = CursorPos { line: 2, col: 0 };
    assert!(e.merge_lines());
    assert_eq!(e.doc.to_text(), "x y\n");
    let mut f = core_with("a\r\nb\r\n");
    f.cursor = CursorPos { line: 0, col: 0 };
    assert!(f.merge_lines());
    assert_eq!(f.doc.to_text(), "a b\r\n");
}

#[test]
fn merge_lines_bookmark_collapse_and_below_shift() {
    let mut c = core_with("a\nbb\nccc\nlow\n");
    c.cursor = CursorPos { line: 2, col: 0 };
    c.toggle_bookmark();
    c.anchor = Some(CursorPos { line: 0, col: 0 });
    c.cursor = CursorPos { line: 2, col: 3 };
    assert!(c.merge_lines());
    assert_eq!(c.doc.to_text(), "a bb ccc\nlow\n");
    assert!(c.bookmarked_lines().is_empty(), "并入行书签丢弃");
    let mut d = core_with("p\nq\nr\nlow\n");
    d.cursor = CursorPos { line: 3, col: 0 };
    d.toggle_bookmark();
    d.anchor = Some(CursorPos { line: 0, col: 0 });
    d.cursor = CursorPos { line: 2, col: 1 };
    assert!(d.merge_lines());
    assert_eq!(d.doc.to_text(), "p q r\nlow\n");
    assert_eq!(d.bookmarked_lines(), vec![1], "块外书签按行数增量平移");
    assert!(d.undo());
    assert_eq!(d.bookmarked_lines(), vec![3], "撤销整体回滚");
}

#[test]
fn split_line_cursor_selection_and_noop() {
    let mut c = core_with("abcd\n");
    c.cursor = CursorPos { line: 0, col: 2 };
    assert!(c.split_line());
    assert_eq!(c.doc.to_text(), "ab\ncd\n");
    assert_eq!(c.cursor, CursorPos { line: 1, col: 0 });
    let mut d = core_with("a\n\nb\n");
    d.cursor = CursorPos { line: 1, col: 0 };
    assert!(d.split_line());
    assert_eq!(d.doc.to_text(), "a\n\n\nb\n", "原尾随换行保持");
    let mut e = core_with("one two three\n");
    e.anchor = Some(CursorPos { line: 0, col: 4 });
    e.cursor = CursorPos { line: 0, col: 7 };
    assert!(e.split_line());
    assert_eq!(e.doc.to_text(), "one \ntwo\n three\n");
    assert_eq!(e.cursor, CursorPos { line: 1, col: 0 });
    let mut f = core_with("ab\r\ncd\r\n");
    f.cursor = CursorPos { line: 0, col: 1 };
    assert!(f.split_line());
    assert_eq!(f.doc.to_text(), "a\r\nb\r\ncd\r\n");
}

#[test]
fn split_line_bookmark_shifts_below_block() {
    let mut c = core_with("aXb\nlow\n");
    c.cursor = CursorPos { line: 1, col: 0 };
    c.toggle_bookmark();
    c.anchor = Some(CursorPos { line: 0, col: 1 });
    c.cursor = CursorPos { line: 0, col: 2 };
    assert!(c.split_line());
    assert_eq!(c.doc.to_text(), "a\nX\nb\nlow\n");
    assert_eq!(c.bookmarked_lines(), vec![3], "块外书签随行数增量下移");
    assert!(c.undo());
    assert_eq!(c.bookmarked_lines(), vec![1]);
}

#[test]
fn delete_empty_lines_modes_scope_and_bookmarks() {
    let mut c = core_with("a\n\nb\n \n\n");
    assert!(c.delete_empty_lines(BlankKind::Empty));
    assert_eq!(c.doc.to_text(), "a\nb\n \n", "\" \" 行在严格口径下幸存");
    let mut d = core_with("a\n\nb\n \n\n");
    assert!(d.delete_empty_lines(BlankKind::Whitespace));
    assert_eq!(d.doc.to_text(), "a\nb\n");
    let mut g = core_with("a\n\n\nb");
    assert!(g.delete_empty_lines(BlankKind::Empty));
    assert_eq!(g.doc.to_text(), "a\nb", "中段全删空补一个衔接符");
    let mut e = core_with("\n\nkeep\n\n\n");
    e.anchor = Some(CursorPos { line: 0, col: 0 });
    e.cursor = CursorPos { line: 2, col: 0 };
    assert!(e.delete_empty_lines(BlankKind::Empty));
    assert_eq!(e.doc.to_text(), "keep\n\n\n", "文档头空块全删不补衔接符");
    let mut f = core_with("x\n\ny\nz\n");
    f.cursor = CursorPos { line: 2, col: 0 };
    f.toggle_bookmark();
    assert!(f.delete_empty_lines(BlankKind::Empty));
    assert_eq!(f.doc.to_text(), "x\ny\nz\n");
    assert_eq!(f.bookmarked_lines(), vec![1], "幸存行书签随压缩上移");
    let snaps = f.undo_stack.len();
    assert!(!f.delete_empty_lines(BlankKind::Whitespace));
    assert_eq!(f.undo_stack.len(), snaps);
}

#[test]
fn selection_display_len_matches_len_chars_semantics() {
    let mut c = core_with("hello world\n");
    c.anchor = Some(CursorPos { line: 0, col: 0 });
    c.cursor = CursorPos { line: 0, col: 5 };
    assert_eq!(c.selection_display_len(), Some(5));
    let mut d = core_with("ab\ncd\nef\n");
    d.anchor = Some(CursorPos { line: 0, col: 1 });
    d.cursor = CursorPos { line: 2, col: 1 };
    assert_eq!(
        d.selection_display_len(),
        Some(6),
        "与查找命中 len_chars 同口径"
    );
    let mut e = core_with("ab\r\ncd\r\n");
    e.anchor = Some(CursorPos { line: 0, col: 1 });
    e.cursor = CursorPos { line: 1, col: 1 };
    assert_eq!(e.selection_display_len(), Some(3));
    let g = core_with("abc");
    assert_eq!(g.selection_display_len(), None);
}

#[test]
fn insert_date_time_format_and_edit_pipeline() {
    let mut c = core_with("log: \n");
    c.cursor = CursorPos { line: 0, col: 5 };
    let stamp = c.insert_date_time();
    assert_eq!(stamp.len(), 16, "{stamp}");
    let b = stamp.as_bytes();
    assert_eq!((b[4], b[7], b[10], b[13]), (b'-', b'-', b' ', b':'));
    assert!(stamp.as_bytes()[..16]
        .iter()
        .all(|&x| x.is_ascii_digit() || x == b'-' || x == b' ' || x == b':'));
    assert_eq!(c.doc.to_text(), format!("log: {stamp}\n"), "插在光标处");
    assert!(!c.undo_stack.is_empty(), "插入是真实编辑，产快照");
    assert!(c.undo());
    assert_eq!(c.doc.to_text(), "log: \n");
}

#[test]
fn toggle_line_comment_wrap_unwrap_roundtrip() {
    let mut c = core_with("alpha\nbeta\n\ngamma");
    assert!(c.toggle_line_comment());
    assert_eq!(c.doc.to_text(), "// alpha\n// beta\n\n// gamma");
    assert!(c.toggle_line_comment());
    assert_eq!(c.doc.to_text(), "alpha\nbeta\n\ngamma");
    let mut d = core_with("  indented\nplain\n");
    assert!(d.toggle_line_comment());
    assert_eq!(d.doc.to_text(), "  // indented\n// plain\n");
    let mut e = core_with("// nospace\n//  keeps double\n");
    assert!(e.toggle_line_comment());
    assert_eq!(e.doc.to_text(), "nospace\n keeps double\n");
    let mut f = core_with("// a\nb\n");
    assert!(f.toggle_line_comment());
    assert_eq!(f.doc.to_text(), "// // a\n// b\n");
    let mut g = core_with("");
    assert!(!g.toggle_line_comment());
}

#[test]
fn toggle_line_comment_prefix_follows_syntax() {
    let mut c = core_with("x = 1\ny = 2\n");
    c.set_language_by_name(Some("Python"));
    assert_eq!(c.highlight_syntax_name().as_deref(), Some("Python"));
    c.cursor = CursorPos { line: 1, col: 0 };
    c.toggle_bookmark();
    c.anchor = Some(CursorPos { line: 0, col: 0 });
    c.cursor = CursorPos { line: 1, col: 5 };
    assert!(c.toggle_line_comment());
    assert_eq!(c.doc.to_text(), "# x = 1\n# y = 2\n");
    assert_eq!(c.bookmarked_lines(), vec![1], "恒等映射书签不动");
}

#[test]
fn collect_block_keeps_last_real_row_when_selection_reaches_eof() {
    let mut c = core_with("c\nb\na\n");
    c.anchor = Some(CursorPos { line: 0, col: 0 });
    c.cursor = CursorPos { line: 1, col: 1 };
    assert!(c.sort_lines(SortOrder::Ascending));
    assert_eq!(c.doc.to_text(), "b\nc\na\n", "块外行 a 不得被吞");
    let mut d = core_with("x = 1\ny = 2\n");
    d.set_language_by_name(Some("Python"));
    d.anchor = Some(CursorPos { line: 0, col: 0 });
    d.cursor = CursorPos { line: 1, col: 5 };
    assert!(d.toggle_line_comment());
    assert_eq!(d.doc.to_text(), "# x = 1\n# y = 2\n");
}

#[test]
fn apply_line_block_clamps_cursor_into_new_row_count() {
    let mut c = core_with("\n\n\n\n");
    c.cursor = CursorPos { line: 3, col: 0 };
    assert!(c.delete_empty_lines(BlankKind::Empty));
    assert_eq!(c.doc.to_text(), "", "全空文档删空行 → 空文档");
    assert_eq!(
        c.cursor,
        CursorPos { line: 0, col: 0 },
        "光标必须收敛进新行数域"
    );
    assert!(c.undo());
    assert_eq!(c.doc.to_text(), "\n\n\n\n", "撤销完整还原");
}

#[test]
fn zero_width_block_is_persistent_insertion_column() {
    let mut c = core_with("abcdef\ngh\nijklm");
    c.begin_block_select(CursorPos { line: 0, col: 2 });
    c.update_block_select(CursorPos { line: 2, col: 2 });
    assert!(c.finish_block_select(), "零宽插入列松开保留");
    assert_eq!(c.active_block(), Some((0, 2, 2, 2)));

    assert_eq!(c.block_copy_text(), Some("\n\n".to_owned()));

    assert!(c.insert_into_block("Z"));
    assert_eq!(c.doc.to_text(), "abZcdef\nghZ\nijZklm");
    assert_eq!(c.cursor, CursorPos { line: 0, col: 3 }, "光标落首行插入文本之后");
    assert!(c.undo(), "零宽插入必须可撤销");
    assert_eq!(c.doc.to_text(), "abcdef\ngh\nijklm");

    let seq = sequence_lines(3, 10, 5, NumBase::Dec, 2, false).join("\n");
    c.begin_block_select(CursorPos { line: 0, col: 1 });
    c.update_block_select(CursorPos { line: 2, col: 2 });
    assert!(c.finish_block_select());
    assert!(c.insert_into_block(&seq));
    assert_eq!(c.doc.to_text(), "a10cdef\ng15\ni20klm");
    assert!(c.undo());
    assert_eq!(c.doc.to_text(), "abcdef\ngh\nijklm");

    let mut d = core_with("ab\ncd");
    d.block_sel = Some(BlockSel {
        anchor: CursorPos { line: 0, col: 1 },
        head: CursorPos { line: 1, col: 1 },
    });
    let snaps = d.undo_stack.len();
    assert!(!d.delete_block_content());
    assert_eq!(d.undo_stack.len(), snaps, "零宽删除不产快照");
    assert_eq!(d.doc.to_text(), "ab\ncd");

    let mut e = core_with("abcd\n");
    e.begin_block_select(CursorPos { line: 1, col: 1 });
    assert!(!e.finish_block_select(), "单点空块松开自动清除");
    assert!(!e.has_block());
}

#[test]
fn block_select_lifecycle_and_geometry() {
    let mut c = core_with("abcdef\ngh\nijklm\n");
    assert!(!c.has_block());
    c.begin_block_select(CursorPos { line: 0, col: 2 });
    assert!(!c.has_block(), "单击不应形成有效块");
    c.update_block_select(CursorPos { line: 2, col: 4 });
    assert!(c.has_block());
    assert_eq!(c.active_block(), Some((0, 2, 2, 4)));
    c.begin_block_select(CursorPos { line: 0, col: 2 });
    c.update_block_select(CursorPos { line: 1, col: 1 });
    assert_eq!(c.active_block(), Some((0, 1, 1, 2)));
    assert!(c.finish_block_select());
    assert!(c.clear_block());
    assert!(!c.has_block());
    c.begin_block_select(CursorPos { line: 1, col: 1 });
    assert!(!c.finish_block_select(), "空块松开自动清除");
    assert!(!c.has_block());
}

#[test]
fn block_copy_delete_insert_oracles() {
    let doc = "abcdef\ngh\nij";
    let mut c = core_with(doc);
    c.block_sel = Some(BlockSel {
        anchor: CursorPos { line: 0, col: 1 },
        head: CursorPos { line: 1, col: 3 },
    });
    assert_eq!(c.active_block(), Some((0, 1, 1, 3)));
    assert_eq!(c.block_copy_text(), Some("bc\nh".to_owned()));

    assert!(c.delete_block_content());
    assert_eq!(c.doc.to_text(), "adef\ng\nij");
    assert_eq!(c.cursor, CursorPos { line: 0, col: 1 });
    let snaps = c.undo_stack.len();
    c.block_sel = Some(BlockSel {
        anchor: CursorPos { line: 0, col: 9 },
        head: CursorPos { line: 1, col: 9 },
    });
    assert!(!c.delete_block_content());
    assert_eq!(c.undo_stack.len(), snaps);

    let mut e = core_with("abc\nXY\nW");
    e.block_sel = Some(BlockSel {
        anchor: CursorPos { line: 0, col: 1 },
        head: CursorPos { line: 1, col: 2 },
    });
    assert!(e.insert_into_block("Z"));
    assert_eq!(e.doc.to_text(), "aZc\nXZ\nW");
    assert_eq!(e.cursor, CursorPos { line: 0, col: 2 });
    assert!(e.undo());
    assert_eq!(e.doc.to_text(), "abc\nXY\nW", "撤销完整还原");

    let mut f = core_with("ab\ncd\n");
    f.toggle_bookmark();
    f.block_sel = Some(BlockSel {
        anchor: CursorPos { line: 0, col: 0 },
        head: CursorPos { line: 1, col: 1 },
    });
    assert!(f.delete_block_content());
    assert_eq!(f.bookmarked_lines(), vec![0], "恒等结构书签原位");
}

#[test]
fn block_insert_multiline_cycles_and_extends() {
    let mut c = core_with("111\n222\n333");
    c.block_sel = Some(BlockSel {
        anchor: CursorPos { line: 0, col: 0 },
        head: CursorPos { line: 2, col: 1 },
    });
    assert!(c.insert_into_block("A\nB"));
    assert_eq!(
        c.doc.to_text(),
        "A11\nB22\nA33",
        "循环填充：行 2 回用文本行 0"
    );
    assert!(c.undo());
    assert_eq!(c.doc.to_text(), "111\n222\n333");

    let mut d = core_with("111\n222\n333");
    d.block_sel = Some(BlockSel {
        anchor: CursorPos { line: 0, col: 0 },
        head: CursorPos { line: 2, col: 1 },
    });
    assert!(d.insert_into_block("A\nB\nC"));
    assert_eq!(d.doc.to_text(), "A11\nB22\nC33");

    let mut e = core_with("111\n222\n尾");
    e.toggle_bookmark();
    e.cursor = CursorPos { line: 2, col: 0 };
    e.toggle_bookmark();
    e.block_sel = Some(BlockSel {
        anchor: CursorPos { line: 0, col: 0 },
        head: CursorPos { line: 1, col: 1 },
    });
    assert!(e.insert_into_block("A\nB\nC"));
    assert_eq!(e.doc.to_text(), "A11\nB22\nC\n尾", "余下行插到块末行下方");
    assert_eq!(e.bookmarked_lines(), vec![0, 3], "书签随扩展下移");
    assert!(e.undo());
    assert_eq!(e.doc.to_text(), "111\n222\n尾");
    assert_eq!(e.bookmarked_lines(), vec![0, 2], "撤销连书签一并还原");

    let mut g = core_with("111\n222");
    g.block_sel = Some(BlockSel {
        anchor: CursorPos { line: 0, col: 0 },
        head: CursorPos { line: 1, col: 1 },
    });
    assert!(g.insert_into_block("A\nB\nC"));
    assert_eq!(g.doc.to_text(), "A11\nB22\nC\n", "文档末尾补齐行尾");
}

#[test]
fn block_cleared_by_nav_undo_and_esc_op() {
    let mk = || {
        let mut c = core_with("abcd\n");
        c.block_sel = Some(BlockSel {
            anchor: CursorPos { line: 0, col: 1 },
            head: CursorPos { line: 0, col: 3 },
        });
        c
    };
    let mut c = mk();
    c.apply_motion(Motion::Right, false, 20);
    assert!(!c.has_block(), "键盘移动退出块态");
    let mut d = mk();
    d.select_all();
    assert!(!d.has_block());
    let mut e = mk();
    e.select_span(0, 0, 2);
    assert!(!e.has_block());
    let mut g = mk();
    g.insert_str("x");
    g.block_sel = mk().block_sel;
    assert!(g.undo());
    assert!(!g.has_block(), "撤销清块");
    let mut h = mk();
    assert!(h.clear_block());
    assert!(!h.clear_block(), "二次清除返回 false");
}

#[test]
fn cursor_offset_is_full_document_char_index() {
    let mut c = core_with("ab\ncd\r\nef");
    c.cursor = CursorPos { line: 0, col: 1 };
    assert_eq!(c.cursor_offset(), 1);
    c.cursor = CursorPos { line: 1, col: 2 };
    assert_eq!(c.cursor_offset(), 5);
    c.cursor = CursorPos { line: 2, col: 2 };
    // 3 + ("cd\r\n"=4) + 2 = 9
    assert_eq!(c.cursor_offset(), 9);
    assert_eq!(c.cursor_offset(), c.doc.text_len());
}
