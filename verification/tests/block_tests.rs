use editpad::document::Document;
use editpad::editor::{CaseKind, CursorPos, EditorCore, SortOrder, TabSpaceKind};
use editpad::tabs::{entab_leading_ws, expand_tabs_in};

fn core_with(text: &str) -> EditorCore {
    let mut c = EditorCore::default();
    c.reset_document(Document::from_str(text));
    c
}

#[test]
fn tab_space_pure_helpers_match_render_tab_stops() {
    assert_eq!(expand_tabs_in("\t\tX", true), "        X");
    assert_eq!(expand_tabs_in(" \tX", true), "    X", "悬置空格后的 Tab 补齐到下一制表位");
    assert_eq!(expand_tabs_in("a\tb", true), "a\tb", "行首模式不碰行中 Tab");
    assert_eq!(expand_tabs_in("a\tb", false), "a   b", "全部模式按显示列展开");
    assert_eq!(expand_tabs_in("中\tX", false), "中  X", "宽字符占 2 列，Tab 只需补 2 格到列 4");
    assert_eq!(entab_leading_ws("    X"), "\tX");
    assert_eq!(entab_leading_ws("   X"), "   X", "不足一档保持原样（幂等）");
    assert_eq!(entab_leading_ws("      X"), "\t  X", "收一档、余两格悬置保留");
    assert_eq!(entab_leading_ws(" \t X"), " \t X", "既有 Tab 前后的零星空格不收拢（不破坏既有对齐）");
    assert_eq!(entab_leading_ws("\u{3000}X"), "\u{3000}X", "全角空格等其他空白不参与收拢");
    assert_eq!(entab_leading_ws("  "), "  ", "整行短空白原样");
}

#[test]
fn convert_tabs_spaces_scopes_noop_and_bookmarks() {
    let mut c = core_with("\tX\nY\tZ\n");
    c.anchor = Some(CursorPos { line: 0, col: 0 });
    c.cursor = CursorPos { line: 0, col: 2 };
    assert!(c.convert_tabs_spaces(TabSpaceKind::AllTabsToSpaces));
    assert_eq!(c.doc.to_text(), "    X\nY\tZ\n", "范围外行不被波及");
    assert!(c.convert_tabs_spaces(TabSpaceKind::AllTabsToSpaces));
    assert_eq!(c.doc.to_text(), "    X\nY   Z\n");
    let snaps = c.undo_stack.len();
    assert!(!c.convert_tabs_spaces(TabSpaceKind::AllTabsToSpaces));
    assert_eq!(c.undo_stack.len(), snaps, "no-op 不得产快照");
    let mut d = core_with("\ta\nb\n");
    d.cursor = CursorPos { line: 1, col: 0 };
    d.toggle_bookmark();
    assert!(d.convert_tabs_spaces(TabSpaceKind::LeadingTabsToSpaces));
    assert_eq!(d.doc.to_text(), "    a\nb\n");
    assert_eq!(d.bookmarked_lines(), vec![1], "恒等映射书签不动");
    let mut e = core_with("    a\n  b\n");
    assert!(e.convert_tabs_spaces(TabSpaceKind::LeadingSpacesToTabs));
    assert_eq!(e.doc.to_text(), "\ta\n  b\n");
}

// ---------- Block indent / outdent (Tab / Shift+Tab) ----------

#[test]
fn block_indent_adds_tab_to_touched_lines_and_shifts_selection() {
    let mut c = core_with("ab\ncd\nef");
    c.anchor = Some(CursorPos { line: 0, col: 1 });
    c.cursor = CursorPos { line: 1, col: 1 };
    assert!(c.indent_touched_lines(false));
    assert_eq!(c.doc.to_text(), "\tab\n\tcd\nef");
    // Column 0 stays at 0; other columns move by the line's indent.
    assert_eq!(c.anchor, Some(CursorPos { line: 0, col: 2 }));
    assert_eq!(c.cursor, CursorPos { line: 1, col: 2 });
    assert!(c.undo(), "a block indent undoes as one step");
    assert_eq!(c.doc.to_text(), "ab\ncd\nef");
}

#[test]
fn block_indent_covers_blank_lines_and_reverses() {
    let mut c = core_with("a\n\nb");
    c.anchor = Some(CursorPos { line: 0, col: 0 });
    c.cursor = CursorPos { line: 2, col: 1 };
    assert!(c.indent_touched_lines(false));
    assert_eq!(c.doc.to_text(), "\ta\n\t\n\tb");
    assert!(c.indent_touched_lines(true));
    assert_eq!(c.doc.to_text(), "a\n\nb");
}

#[test]
fn block_indent_handles_crlf_and_keeps_tail_newline() {
    let mut c = core_with("a\r\nb\r\n");
    c.anchor = Some(CursorPos { line: 0, col: 0 });
    c.cursor = CursorPos { line: 2, col: 0 }; // end at the start of the empty last line
    assert!(c.indent_touched_lines(false));
    // The empty last line is not part of the block; the final break stays.
    assert_eq!(c.doc.to_text(), "\ta\r\n\tb\r\n");
}

#[test]
fn outdent_strips_tab_or_up_to_tab_stop_spaces() {
    let mut c = core_with("\tx\n    y\n   z\nw");
    c.anchor = Some(CursorPos { line: 0, col: 0 });
    c.cursor = CursorPos { line: 3, col: 1 };
    assert!(c.indent_touched_lines(true));
    // One tab goes whole; four spaces go; three (less than a stop) go too;
    // a line without leading white space stays.
    assert_eq!(c.doc.to_text(), "x\ny\nz\nw");
    assert_eq!(c.cursor, CursorPos { line: 3, col: 1 }, "a line that lost nothing keeps its column");
}

#[test]
fn outdent_without_selection_outdents_current_line() {
    let mut c = core_with("    x");
    c.cursor = CursorPos { line: 0, col: 2 }; // inside the white space that goes
    assert!(c.indent_touched_lines(true));
    assert_eq!(c.doc.to_text(), "x");
    assert_eq!(c.cursor, CursorPos { line: 0, col: 0 }, "a column inside the cut clamps to 0");
    // Nothing left to take: no-op, no undo entry.
    assert!(!c.indent_touched_lines(true));
    assert_eq!(c.doc.to_text(), "x");
}

#[test]
fn indent_without_selection_inserts_tab_like_before() {
    let mut c = core_with("ab");
    c.cursor = CursorPos { line: 0, col: 1 };
    assert!(c.indent_touched_lines(false));
    assert_eq!(c.doc.to_text(), "a\tb");
    assert_eq!(c.cursor, CursorPos { line: 0, col: 2 });
}

#[test]
fn outdent_on_phantom_line_is_noop() {
    let mut c = core_with("a\n");
    c.cursor = CursorPos { line: 1, col: 0 }; // the empty line after the final break
    assert!(!c.indent_touched_lines(true));
    assert_eq!(c.doc.to_text(), "a\n");
}

// ---------- More line operations and title case ----------

#[test]
fn reverse_lines_reverses_block_and_is_undoable() {
    let mut c = core_with("a\nb\nc");
    assert!(c.reverse_lines());
    assert_eq!(c.doc.to_text(), "c\nb\na");
    assert!(c.undo());
    assert_eq!(c.doc.to_text(), "a\nb\nc");
    // A block that reads the same backwards: no-op.
    let mut p = core_with("x\ny\nx");
    assert!(!p.reverse_lines());
    assert_eq!(p.doc.to_text(), "x\ny\nx");
}

#[test]
fn numeric_sort_extracts_leading_signed_int_and_parks_keyless_last() {
    let mut c = core_with("b 3\n-1 x\nno num\n+2 y\n10 z");
    assert!(c.sort_lines_numeric(SortOrder::Ascending));
    assert_eq!(c.doc.to_text(), "-1 x\n+2 y\nb 3\n10 z\nno num");
    assert!(c.sort_lines_numeric(SortOrder::Descending));
    assert_eq!(c.doc.to_text(), "10 z\nb 3\n+2 y\n-1 x\nno num");
    // A number inside the line counts too, not only at its start.
    let mut d = core_with("id=42\nid=7");
    assert!(d.sort_lines_numeric(SortOrder::Ascending));
    assert_eq!(d.doc.to_text(), "id=7\nid=42");
}

#[test]
fn length_sort_orders_by_char_count() {
    let mut c = core_with("ccc\na\ndd");
    assert!(c.sort_lines_length(SortOrder::Ascending));
    assert_eq!(c.doc.to_text(), "a\ndd\nccc");
    assert!(c.sort_lines_length(SortOrder::Descending));
    assert_eq!(c.doc.to_text(), "ccc\ndd\na");
}

#[test]
fn consecutive_dedupe_keeps_first_of_each_run() {
    let mut c = core_with("a\na\nb\na\na\na\nc");
    assert!(c.remove_consecutive_duplicate_lines());
    assert_eq!(c.doc.to_text(), "a\nb\na\nc");
    assert!(c.undo(), "undoes as one step");
    assert_eq!(c.doc.to_text(), "a\na\nb\na\na\na\nc");
    // No neighbouring repeats: no-op.
    let mut d = core_with("x\ny");
    assert!(!d.remove_consecutive_duplicate_lines());
}

#[test]
fn title_case_uppercases_word_starts_and_lowers_rest() {
    let mut c = core_with("hello WORLD foo_bar\n中文test");
    c.cursor = CursorPos { line: 0, col: 0 };
    c.select_all();
    assert!(c.convert_case(CaseKind::Title));
    assert_eq!(c.doc.to_text(), "Hello World Foo_Bar\n中文test", "underscore splits words, CJK joins the word");
    // Already in title case: no-op.
    assert!(!c.convert_case(CaseKind::Title));
}

#[test]
fn length_sort_is_stable_for_equal_lengths() {
    let mut c = core_with("bb\naa\nc\ncc");
    assert!(c.sort_lines_length(SortOrder::Ascending));
    assert_eq!(c.doc.to_text(), "c\nbb\naa\ncc");
}

#[test]
fn reverse_keeps_bookmarks_on_their_lines() {
    let mut c = core_with("a\nb\nc");
    c.cursor = CursorPos { line: 0, col: 0 };
    c.toggle_bookmark();
    assert!(c.reverse_lines());
    assert_eq!(c.bookmarked_lines(), vec![2]);
}
