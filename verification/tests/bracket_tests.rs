use editpad::document::Document;
use editpad::editor::{CursorPos, EditorCore};

fn core_with(text: &str) -> EditorCore {
    let mut c = EditorCore::default();
    c.reset_document(Document::from_str(text));
    c
}

#[test]
fn bracket_match_adjacency_and_none() {
    let mut c = core_with("()\nfoo\n");
    // cursor before '(': the character on the right wins
    c.cursor = CursorPos { line: 0, col: 0 };
    assert_eq!(c.bracket_match(), Some((0, 1)));
    // cursor after ')': the character on the left is the fallback
    c.cursor = CursorPos { line: 0, col: 2 };
    assert_eq!(c.bracket_match(), Some((1, 0)));
    // between the two: the ')' on the right wins
    c.cursor = CursorPos { line: 0, col: 1 };
    assert_eq!(c.bracket_match(), Some((1, 0)));
    // no bracket next to the cursor
    c.cursor = CursorPos { line: 1, col: 1 };
    assert_eq!(c.bracket_match(), None);
    // end of the document: the left fallback still works
    let mut d = core_with("x[]");
    d.cursor = CursorPos { line: 0, col: 3 };
    assert_eq!(d.bracket_match(), Some((2, 1)));
    // an unpaired bracket has no partner
    let mut e = core_with("x{");
    e.cursor = CursorPos { line: 0, col: 2 };
    assert_eq!(e.bracket_match(), None);
    // empty document
    assert_eq!(core_with("").bracket_match(), None);
}

#[test]
fn bracket_match_multiline_nested_and_crlf() {
    // nesting across lines: the outer ( pairs with the ) on the last line
    let mut c = core_with("f(\n  g(1)\n)\n");
    c.cursor = CursorPos { line: 0, col: 2 };
    assert_eq!(c.bracket_match(), Some((1, 10)));
    // the inner pair is not disturbed by the outer one
    c.cursor = CursorPos { line: 1, col: 6 };
    assert_eq!(c.bracket_match(), Some((8, 6)));
    // CRLF document: \r counts as one character
    let mut d = core_with("a(\r\nb)\r\n");
    d.cursor = CursorPos { line: 0, col: 2 };
    assert_eq!(d.bracket_match(), Some((1, 5)));
    d.cursor = CursorPos { line: 1, col: 1 };
    assert_eq!(d.bracket_match(), Some((5, 1)));
    // each kind counts on its own
    let mut e = core_with("([)]");
    e.cursor = CursorPos { line: 0, col: 0 };
    assert_eq!(e.bracket_match(), Some((0, 2)), "each pair is counted on its own");
}

#[test]
fn bracket_jump_toggles_sides_and_noop_without_match() {
    let mut c = core_with("ab(cd)\n");
    // before '(' -> after ')'
    c.cursor = CursorPos { line: 0, col: 2 };
    assert!(c.jump_to_matching_bracket());
    assert_eq!(c.cursor, CursorPos { line: 0, col: 6 });
    // again: after ')' -> before '('
    assert!(c.jump_to_matching_bracket());
    assert_eq!(c.cursor, CursorPos { line: 0, col: 2 });
    // no bracket next to the cursor: nothing moves
    c.cursor = CursorPos { line: 0, col: 0 };
    assert!(!c.jump_to_matching_bracket());
    assert_eq!(c.cursor, CursorPos { line: 0, col: 0 });
    // unpaired: nothing moves
    let mut d = core_with("(abc\n");
    d.cursor = CursorPos { line: 0, col: 0 };
    assert!(!d.jump_to_matching_bracket());
    // a jump takes no undo snapshot
    assert!(c.undo_stack.is_empty());
}

#[test]
fn bracket_cache_invalidates_on_content_change_same_cursor() {
    let mut c = core_with("a()");
    c.cursor = CursorPos { line: 0, col: 2 };
    assert_eq!(c.bracket_match(), Some((2, 1)));
    // replace ')' by 'x' through the selection
    c.cursor = CursorPos { line: 0, col: 2 };
    c.anchor = Some(CursorPos { line: 0, col: 3 });
    c.insert_str("x");
    assert_eq!(c.cursor, CursorPos { line: 0, col: 3 });
    c.cursor = CursorPos { line: 0, col: 2 };
    assert_eq!(c.bracket_match(), None, "the answer follows the new content");
}

#[test]
fn bracket_cache_invalidates_on_undo_redo_and_doc_replacement() {
    let mut c = core_with("(y)");
    c.cursor = CursorPos { line: 0, col: 1 };
    assert_eq!(c.bracket_match(), Some((0, 2)));
    c.cursor = CursorPos { line: 0, col: 2 };
    c.insert_str("z");
    c.cursor = CursorPos { line: 0, col: 2 };
    assert_eq!(c.bracket_match(), None, "new content (yz): no match here");
    assert!(c.undo());
    assert_eq!(c.bracket_match(), Some((2, 0)), "after undo the restored content is read");
    assert!(c.redo());
    assert_eq!(c.bracket_match(), None);

    let mut d = core_with("()");
    d.cursor = CursorPos { line: 0, col: 0 };
    assert_eq!(d.bracket_match(), Some((0, 1)));
    d.reset_document(Document::from_str("hello"));
    assert_eq!(d.cursor, CursorPos::default());
    assert_eq!(d.bracket_match(), None, "a reloaded document gives no stale pair");

    let mut e = core_with("()");
    e.cursor = CursorPos { line: 0, col: 0 };
    assert_eq!(e.bracket_match(), Some((0, 1)));
    e.replace_whole_document(Document::from_str("world"));
    assert_eq!(e.bracket_match(), None, "a replaced document gives no stale pair");
}

#[test]
fn bracket_match_is_symmetric_on_concrete_text() {
    let text = "x{a[b](c)}y";
    let mut c = core_with(text);
    // before '{' at 1 -> partner 9
    c.cursor = CursorPos { line: 0, col: 1 };
    assert_eq!(c.bracket_match(), Some((1, 9)));
    // after '}' at 9 (col 10, 'y' on the right is not a bracket)
    c.cursor = CursorPos { line: 0, col: 10 };
    assert_eq!(c.bracket_match(), Some((9, 1)));
    // '[' at 3 pairs with ']' at 5 and back
    c.cursor = CursorPos { line: 0, col: 3 };
    assert_eq!(c.bracket_match(), Some((3, 5)));
    c.cursor = CursorPos { line: 0, col: 5 };
    assert_eq!(c.bracket_match(), Some((5, 3)));
}
