use editpad::document::Document;
use editpad::metrics::display_cols;
use editpad::tabs::{entab_leading_ws, expand_tabs_in};
use editpad::links::link_at;
use editpad::editor::Motion;
use editpad::editor::{BlankKind, CursorPos, EditorCore, SortOrder, TrimMode};
use editpad::numbering::{extract_leading_int, sequence_lines, NumBase};

fn core_with(text: &str) -> EditorCore {
    let mut c = EditorCore::default();
    c.reset_document(Document::from_str(text));
    c
}

#[test]
fn decimal_number_reads_back_as_itself() {
    for &v in &[0i64, 7, -7, 42, -1234567, i64::MAX, i64::MIN] {
        let lines = sequence_lines(1, v, 0, NumBase::Dec, 6, false);
        assert_eq!(extract_leading_int(&lines[0]), Some(v as i128), "value {}", v);
    }
}

#[test]
fn padded_decimal_reads_back() {
    let lines = sequence_lines(3, -5, 5, NumBase::Dec, 4, false);
    assert_eq!(lines, vec!["-0005".to_string(), "0000".to_string(), "0005".to_string()]);
    let back: Vec<Option<i128>> = lines.iter().map(|s| extract_leading_int(s)).collect();
    assert_eq!(back, vec![Some(-5), Some(0), Some(5)]);
}

#[test]
fn toggling_comments_twice_restores_the_lines() {
    let text = "fn a() {\n    let x = 1;\n\n}";
    let mut c = core_with(text);
    c.syntax_name = Some("Rust".to_string());
    c.select_all();
    assert!(c.toggle_line_comment());
    assert_ne!(c.doc.to_text(), text);
    c.select_all();
    assert!(c.toggle_line_comment());
    assert_eq!(c.doc.to_text(), text);
}

#[test]
fn toggling_a_bookmark_twice_leaves_none() {
    let mut c = core_with("a\nb\nc");
    c.cursor = CursorPos { line: 1, col: 0 };
    assert!(c.toggle_bookmark());
    assert!(c.is_bookmarked(1));
    c.toggle_bookmark();
    assert!(!c.is_bookmarked(1));
    assert!(c.bookmarked_lines().is_empty());
}

#[test]
fn next_bookmark_is_the_nearest_in_each_direction() {
    let mut c = core_with("0\n1\n2\n3\n4\n5");
    for line in [1usize, 3, 5] {
        c.cursor = CursorPos { line, col: 0 };
        c.toggle_bookmark();
    }
    c.cursor = CursorPos { line: 2, col: 0 };
    assert_eq!(c.next_bookmark_line(true), Some(3));
    assert_eq!(c.next_bookmark_line(false), Some(1));
    c.cursor = CursorPos { line: 5, col: 0 };
    assert_eq!(c.next_bookmark_line(true), Some(1), "wraps to the first");
}

#[test]
fn sorted_lines_come_out_in_order_and_keep_every_line() {
    let mut c = core_with("pear\nApple\nfig\napple\nfig");
    c.select_all();
    assert!(c.sort_lines(SortOrder::Ascending));
    assert_eq!(c.doc.to_text(), "Apple\napple\nfig\nfig\npear");
    c.select_all();
    assert!(c.sort_lines(SortOrder::Descending));
    assert_eq!(c.doc.to_text(), "pear\nfig\nfig\napple\nApple");
}

#[test]
fn removing_duplicates_keeps_each_line_once_in_first_order() {
    let mut c = core_with("b\na\nb\nc\na");
    c.select_all();
    assert!(c.remove_duplicate_lines());
    assert_eq!(c.doc.to_text(), "b\na\nc");
    c.select_all();
    assert!(!c.remove_duplicate_lines(), "a second pass changes nothing");
}

#[test]
fn trimming_twice_is_trimming_once() {
    for mode in [TrimMode::Leading, TrimMode::Trailing, TrimMode::Both] {
        let mut c = core_with("  a b  \n\t c\t\n   ");
        c.select_all();
        c.trim_touched_lines(mode);
        let once = c.doc.to_text();
        c.select_all();
        assert!(!c.trim_touched_lines(mode), "second trim changes nothing");
        assert_eq!(c.doc.to_text(), once);
    }
}

#[test]
fn moving_lines_up_then_down_restores_text_and_bookmarks() {
    let mut c = core_with("one\ntwo\nthree\nfour");
    c.cursor = CursorPos { line: 2, col: 0 };
    c.toggle_bookmark();
    c.anchor = Some(CursorPos { line: 1, col: 0 });
    c.cursor = CursorPos { line: 2, col: 2 };
    assert!(c.move_current_lines(true));
    assert_eq!(c.doc.to_text(), "two\nthree\none\nfour");
    assert_eq!(c.bookmarked_lines(), vec![1]);
    c.anchor = Some(CursorPos { line: 0, col: 0 });
    c.cursor = CursorPos { line: 1, col: 2 };
    assert!(c.move_current_lines(false));
    assert_eq!(c.doc.to_text(), "one\ntwo\nthree\nfour");
    assert_eq!(c.bookmarked_lines(), vec![2]);
}

#[test]
fn deleting_blank_lines_twice_is_deleting_once() {
    let mut c = core_with("a\n\n  \nb\n\t\nc");
    assert!(c.delete_empty_lines(BlankKind::Whitespace));
    assert_eq!(c.doc.to_text(), "a\nb\nc");
    assert!(!c.delete_empty_lines(BlankKind::Whitespace));
    assert_eq!(c.doc.to_text(), "a\nb\nc");
}

#[test]
fn expanding_tabs_keeps_the_display_width() {
    for s in ["\tx", "ab\tc\t", "中\t文", "  \t\ty"] {
        let all = expand_tabs_in(s, false);
        assert!(!all.contains('\t'));
        assert_eq!(display_cols(&all), display_cols(s), "{s:?}");
        let lead = expand_tabs_in(s, true);
        assert_eq!(display_cols(&lead), display_cols(s), "{s:?}");
    }
}

#[test]
fn entab_keeps_alignment_and_is_idempotent() {
    // A lone space reaching a tab stop stays a space; the next full cell folds.
    assert_eq!(entab_leading_ws("\u{a0}\u{a0}\u{a0}     X"), "\u{a0}\u{a0}\u{a0} \tX");
    for s in ["\u{a0}\u{a0}\u{a0}     X", "    X", "      X", " \t X", "\u{3000}  X", "         y  z", "  ", "\u{a0}          "] {
        let once = entab_leading_ws(s);
        assert_eq!(display_cols(&once), display_cols(s), "{s:?}");
        assert_eq!(entab_leading_ws(&once), once, "{s:?}");
        let expanded = expand_tabs_in(&once, true);
        assert_eq!(display_cols(&expanded), display_cols(s), "{s:?}");
    }
}

#[test]
fn leading_expand_keeps_the_rest_of_the_line() {
    assert_eq!(expand_tabs_in(" \tx\ty", true), "    x\ty");
    assert_eq!(expand_tabs_in("no tabs here", false), "no tabs here");
    let twice = expand_tabs_in(&expand_tabs_in("a\tb\tc", false), false);
    assert_eq!(twice, expand_tabs_in("a\tb\tc", false));
}

#[test]
fn link_ranges_are_non_empty_and_inside_the_token() {
    let none = |_: &str| -> Option<String> { None };
    let text = "see https://example.com/x). now";
    let (a, b, _) = link_at(text, 8, &none).expect("a link");
    assert!(a < b);
    let chars: Vec<char> = text.chars().collect();
    assert!(chars[a..b].iter().all(|c| !c.is_whitespace()));
    assert_eq!(chars[a..b].iter().collect::<String>(), "https://example.com/x");
    assert!(link_at(text, 3, &none).is_none(), "white space under the column");
    assert!(link_at("", 0, &none).is_none());
}

#[test]
fn page_motion_moves_at_least_one_line() {
    let mut c = core_with("a\nb\nc");
    c.cursor = CursorPos { line: 0, col: 0 };
    c.apply_motion(Motion::PageDown, false, 0);
    assert_eq!(c.cursor.line, 1);
    c.apply_motion(Motion::PageUp, false, 0);
    assert_eq!(c.cursor.line, 0);
}

#[test]
fn undo_leaves_extra_cursors_alone() {
    let mut c = core_with("abc\ndef");
    c.insert_str("x");
    assert!(c.toggle_extra_cursor(CursorPos { line: 1, col: 1 }));
    let extras = c.extra_cursors.clone();
    assert!(c.undo());
    assert_eq!(c.extra_cursors, extras);
}

fn bodies_of(c: &EditorCore) -> Vec<String> {
    (0..c.doc.line_count()).map(|l| c.doc.body_chars(l).into_iter().collect()).collect()
}

#[test]
fn trimming_without_selection_trims_each_line_in_place() {
    let mut c = core_with("  a b  \r\n\t c\t\r\n   \r\nd");
    let before = bodies_of(&c);
    assert!(c.trim_touched_lines(TrimMode::Both));
    let after = bodies_of(&c);
    assert_eq!(after.len(), before.len());
    assert_eq!(after, vec!["a b", "c", "", "d"]);
    assert_eq!(c.doc.to_text(), "a b\r\nc\r\n\r\nd");
    let mut t = core_with("  x  \n y \n");
    assert!(t.trim_touched_lines(TrimMode::Trailing));
    assert_eq!(bodies_of(&t), vec!["  x", " y", ""]);
    assert_eq!(t.doc.to_text(), "  x\n y\n");
}

#[test]
fn sorting_without_selection_keeps_the_line_count_and_the_final_break() {
    let mut c = core_with("pear\napple\nBanana\n");
    assert!(c.sort_lines(SortOrder::Ascending));
    assert_eq!(bodies_of(&c), vec!["Banana", "apple", "pear", ""]);
    assert_eq!(c.doc.to_text(), "Banana\napple\npear\n");
    let mut d = core_with("apple\nBanana\npear");
    assert!(d.sort_lines(SortOrder::Descending));
    assert_eq!(bodies_of(&d), vec!["pear", "apple", "Banana"]);
}

#[test]
fn moving_one_line_up_then_down_restores_text_and_bookmarks() {
    let mut c = core_with("abcdef\r\nsecond\r\nc\r\nlast");
    c.cursor = CursorPos { line: 2, col: 0 };
    c.toggle_bookmark();
    c.cursor = CursorPos { line: 0, col: 0 };
    c.toggle_bookmark();
    c.cursor = CursorPos { line: 1, col: 3 };
    assert!(c.move_current_lines(true));
    assert_eq!(c.doc.to_text(), "second\r\nabcdef\r\nc\r\nlast");
    assert_eq!(c.bookmarked_lines(), vec![1, 2]);
    assert!(c.move_current_lines(false));
    assert_eq!(c.doc.to_text(), "abcdef\r\nsecond\r\nc\r\nlast");
    assert_eq!(c.bookmarked_lines(), vec![0, 2]);
}

#[test]
fn moving_one_line_down_then_up_restores_text_and_bookmarks() {
    let mut c = core_with("a\nb\nc");
    c.cursor = CursorPos { line: 2, col: 0 };
    c.toggle_bookmark();
    c.cursor = CursorPos { line: 1, col: 0 };
    assert!(c.move_current_lines(false));
    assert_eq!(c.doc.to_text(), "a\nc\nb");
    assert_eq!(c.bookmarked_lines(), vec![1]);
    assert!(c.move_current_lines(true));
    assert_eq!(c.doc.to_text(), "a\nb\nc");
    assert_eq!(c.bookmarked_lines(), vec![2]);
}

#[test]
fn moving_up_the_line_before_a_final_break_drops_that_break() {
    let mut c = core_with("a\nb\n");
    c.cursor = CursorPos { line: 1, col: 0 };
    assert!(c.move_current_lines(true));
    assert_eq!(c.doc.to_text(), "b\na");
}

#[test]
fn trimming_a_selection_keeps_the_lines_around_it() {
    let mut c = core_with("a \n  b  \n c \nd ");
    c.anchor = Some(CursorPos { line: 1, col: 0 });
    c.cursor = CursorPos { line: 2, col: 1 };
    assert!(c.trim_touched_lines(TrimMode::Both));
    assert_eq!(bodies_of(&c), vec!["a ", "b", "c", "d "]);
    assert_eq!(c.doc.to_text(), "a \nb\nc\nd ");
}

#[test]
fn trimming_the_line_before_a_final_break_drops_that_break() {
    let mut c = core_with("a \nb \n");
    c.anchor = Some(CursorPos { line: 1, col: 0 });
    c.cursor = CursorPos { line: 1, col: 1 };
    assert!(c.trim_touched_lines(TrimMode::Trailing));
    assert_eq!(c.doc.to_text(), "a \nb");
}

#[test]
fn sorting_a_selection_keeps_the_lines_around_it() {
    let mut c = core_with("z\nc\nb\na\ny\n");
    c.anchor = Some(CursorPos { line: 1, col: 0 });
    c.cursor = CursorPos { line: 3, col: 1 };
    assert!(c.sort_lines(SortOrder::Ascending));
    assert_eq!(bodies_of(&c), vec!["z", "a", "b", "c", "y", ""]);
    assert_eq!(c.doc.to_text(), "z\na\nb\nc\ny\n");
}
