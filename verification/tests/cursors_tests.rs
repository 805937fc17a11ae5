use editpad::cursors::MAX_EXTRA_CURSORS;
use editpad::document::Document;
use editpad::editor::{CursorPos, EditErr, EditorCore, ExtraCursor, Motion};
use editpad::multiedit::MultiEditKind;

fn core_with(text: &str) -> EditorCore {
    let mut c = EditorCore::default();
    c.reset_document(Document::from_str(text));
    c
}

fn extra_positions(c: &EditorCore) -> Vec<CursorPos> {
    c.extra_cursors.iter().map(|e| e.cursor).collect()
}

#[test]
fn extra_cursor_toggle_add_remove_and_invariants() {
    let mut c = core_with("abcdef\nghijkl\nmnopqr");
    assert!(!c.has_multi());

    // added out of order, kept in document order
    assert!(c.toggle_extra_cursor(CursorPos { line: 2, col: 1 }));
    assert!(c.toggle_extra_cursor(CursorPos { line: 0, col: 3 }));
    assert!(c.has_multi());
    assert_eq!(
        extra_positions(&c),
        vec![CursorPos { line: 0, col: 3 }, CursorPos { line: 2, col: 1 }],
        "extra cursors stay in document order"
    );
    assert_eq!(
        c.all_cursors(),
        vec![
            CursorPos { line: 0, col: 0 },
            CursorPos { line: 0, col: 3 },
            CursorPos { line: 2, col: 1 },
        ],
        "all cursors = main + extra, ordered and unique"
    );

    // the same place again removes it
    assert!(c.toggle_extra_cursor(CursorPos { line: 0, col: 3 }));
    assert_eq!(c.extra_cursors.len(), 1);

    // the main cursor's place is a no-op
    let main = c.cursor;
    assert!(!c.toggle_extra_cursor(main));
    assert_eq!(c.extra_cursors.len(), 1);
}

#[test]
fn extra_cursor_guards_and_cap() {
    // refused with soft wrap on
    let mut c = core_with("abc\ndef");
    c.set_word_wrap(true);
    assert!(!c.toggle_extra_cursor(CursorPos { line: 0, col: 1 }));
    c.set_word_wrap(false);

    // refused with a column block
    c.begin_block_select(CursorPos { line: 0, col: 0 });
    c.update_block_select(CursorPos { line: 1, col: 1 });
    assert!(!c.toggle_extra_cursor(CursorPos { line: 0, col: 1 }));
    c.clear_block();

    // refused during an IME composition
    c.ime_preedit("拼音".to_owned());
    assert!(!c.toggle_extra_cursor(CursorPos { line: 0, col: 1 }));
    c.ime_preedit(String::new());

    // the cap: no more after MAX_EXTRA_CURSORS
    let lines = "x\n".repeat(MAX_EXTRA_CURSORS / 2 + 2);
    let mut big = core_with(&lines);
    for i in 0..=MAX_EXTRA_CURSORS / 2 + 1 {
        for j in 0..2 {
            if big.extra_cursors.len() >= MAX_EXTRA_CURSORS {
                break;
            }
            let pos = CursorPos { line: i, col: j };
            if pos == big.cursor {
                continue;
            }
            assert!(big.toggle_extra_cursor(pos), "below the cap a cursor can be added");
        }
    }
    assert_eq!(big.extra_cursors.len(), MAX_EXTRA_CURSORS);
    assert!(
        !big.toggle_extra_cursor(CursorPos { line: MAX_EXTRA_CURSORS / 2 + 2, col: 0 }),
        "at the cap nothing is added"
    );

    // collapsing says whether there were extra cursors
    assert!(big.collapse_multi());
    assert!(!big.has_multi());
    assert!(!big.collapse_multi());
}

#[test]
fn multi_motion_horizontal_steps_and_boundary_collapse() {
    let mut c = core_with("abcdef\nxy\nlonger");
    c.cursor = CursorPos { line: 0, col: 1 };
    assert!(c.toggle_extra_cursor(CursorPos { line: 1, col: 0 }));
    assert!(c.toggle_extra_cursor(CursorPos { line: 2, col: 3 }));

    // Right: main 1->2; line 2 cursor 3->4; line 1 cursor 0->1
    c.apply_motion(Motion::Right, false, 20);
    assert_eq!(c.cursor, CursorPos { line: 0, col: 2 });
    assert_eq!(extra_positions(&c), vec![CursorPos { line: 1, col: 1 }, CursorPos { line: 2, col: 4 }]);

    // the line 1 cursor reaches the line end, then is dropped
    for _ in 0..2 {
        c.apply_motion(Motion::Right, false, 20);
    }
    assert_eq!(
        extra_positions(&c),
        vec![CursorPos { line: 2, col: 6 }],
        "Right at the line end drops that extra cursor"
    );
    assert!(c.has_multi());

    // Left: the main cursor and the line 2 cursor step back
    c.apply_motion(Motion::Left, false, 20);
    c.apply_motion(Motion::Left, false, 20);
    assert_eq!(c.cursor, CursorPos { line: 0, col: 2 }, "the main cursor steps back too");
    assert_eq!(extra_positions(&c), vec![CursorPos { line: 2, col: 4 }]);

    // a vertical motion collapses to one cursor
    c.apply_motion(Motion::Down, false, 20);
    assert!(!c.has_multi(), "other motions drop the extra cursors");
}

#[test]
fn multi_collapse_on_select_all_word_wrap_and_undo_path() {
    let mut c = core_with("ab\ncd");
    assert!(c.toggle_extra_cursor(CursorPos { line: 1, col: 1 }));
    c.select_all();
    assert!(!c.has_multi(), "select all drops the extra cursors");

    assert!(c.toggle_extra_cursor(CursorPos { line: 0, col: 1 }));
    c.set_word_wrap(true);
    assert!(!c.has_multi(), "turning soft wrap on drops the extra cursors");
    c.set_word_wrap(false);

    assert!(!c.has_multi());
    assert!(c.cursor.line < c.doc.line_count());
}

#[test]
fn multi_edit_insert_at_every_cursor_is_one_undo_step() {
    let mut c = core_with("abc\nabd\nxyz");
    c.cursor = CursorPos { line: 0, col: 3 };
    assert!(c.toggle_extra_cursor(CursorPos { line: 1, col: 3 }));
    assert!(c.toggle_extra_cursor(CursorPos { line: 2, col: 0 }));
    assert_eq!(c.multi_edit(MultiEditKind::Insert("!")), Some(true));
    assert_eq!(c.doc.to_text(), "abc!\nabd!\n!xyz");
    assert_eq!(c.cursor, CursorPos { line: 0, col: 4 });
    assert_eq!(extra_positions(&c), vec![CursorPos { line: 1, col: 4 }, CursorPos { line: 2, col: 1 }]);
    assert_eq!(c.undo_stack.len(), 1, "one snapshot for the whole step");
    assert!(c.undo());
    assert_eq!(c.doc.to_text(), "abc\nabd\nxyz");
}

#[test]
fn multi_edit_replaces_selections_and_lands_after_payload() {
    let mut c = core_with("one two one");
    c.anchor = Some(CursorPos { line: 0, col: 0 });
    c.cursor = CursorPos { line: 0, col: 3 };
    c.extra_cursors = vec![ExtraCursor {
        cursor: CursorPos { line: 0, col: 11 },
        anchor: Some(CursorPos { line: 0, col: 8 }),
    }];
    assert_eq!(c.multi_edit(MultiEditKind::Insert("1")), Some(true));
    assert_eq!(c.doc.to_text(), "1 two 1");
    assert_eq!(c.cursor, CursorPos { line: 0, col: 1 });
    assert_eq!(c.anchor, None);
    assert_eq!(
        c.extra_cursors,
        vec![ExtraCursor { cursor: CursorPos { line: 0, col: 7 }, anchor: None }]
    );
}

#[test]
fn multi_edit_backspace_and_delete_within_lines() {
    let mut c = core_with("ab\ncd");
    c.cursor = CursorPos { line: 0, col: 2 };
    assert!(c.toggle_extra_cursor(CursorPos { line: 1, col: 2 }));
    assert_eq!(c.multi_edit(MultiEditKind::Backspace), Some(true));
    assert_eq!(c.doc.to_text(), "a\nc");
    assert_eq!(c.cursor, CursorPos { line: 0, col: 1 });
    assert_eq!(extra_positions(&c), vec![CursorPos { line: 1, col: 1 }]);

    let mut d = core_with("ab\ncd");
    d.cursor = CursorPos { line: 0, col: 0 };
    assert!(d.toggle_extra_cursor(CursorPos { line: 1, col: 0 }));
    assert_eq!(d.multi_edit(MultiEditKind::Delete), Some(true));
    assert_eq!(d.doc.to_text(), "b\nd");
    assert_eq!(d.cursor, CursorPos { line: 0, col: 0 });
    assert_eq!(extra_positions(&d), vec![CursorPos { line: 1, col: 0 }]);
}

#[test]
fn multi_edit_refuses_line_crossing_and_overlaps() {
    // an extra cursor at a line start cannot backspace: all extra cursors go
    let mut c = core_with("ab\ncd");
    c.cursor = CursorPos { line: 0, col: 2 };
    assert!(c.toggle_extra_cursor(CursorPos { line: 1, col: 0 }));
    assert_eq!(c.multi_edit(MultiEditKind::Backspace), None);
    assert!(!c.has_multi());
    assert_eq!(c.doc.to_text(), "ab\ncd");
    assert!(c.undo_stack.is_empty());

    // a selection over two lines cannot be part of it
    let mut d = core_with("ab\ncd\nef");
    d.anchor = Some(CursorPos { line: 0, col: 1 });
    d.cursor = CursorPos { line: 1, col: 1 };
    assert!(d.toggle_extra_cursor(CursorPos { line: 2, col: 1 }));
    assert_eq!(d.multi_edit(MultiEditKind::Insert("x")), None);
    assert!(!d.has_multi());
    assert_eq!(d.doc.to_text(), "ab\ncd\nef");

    // a selection holding another cursor is in its way
    let mut e = core_with("abcdef");
    e.anchor = Some(CursorPos { line: 0, col: 1 });
    e.cursor = CursorPos { line: 0, col: 4 };
    e.extra_cursors = vec![ExtraCursor { cursor: CursorPos { line: 0, col: 2 }, anchor: None }];
    assert_eq!(e.multi_edit(MultiEditKind::Insert("x")), None);
    assert!(!e.has_multi());
    assert_eq!(e.doc.to_text(), "abcdef");
}

#[test]
fn multi_edit_noops_and_document_edges() {
    // without extra cursors the caller does a plain edit
    let mut c = core_with("ab");
    assert_eq!(c.multi_edit(MultiEditKind::Insert("x")), None);
    // an empty insertion does nothing
    assert!(c.toggle_extra_cursor(CursorPos { line: 0, col: 1 }));
    assert_eq!(c.multi_edit(MultiEditKind::Insert("")), Some(false));
    assert!(c.has_multi());
    assert_eq!(c.doc.to_text(), "ab");

    // the main cursor at the text start backspaces nothing, the others work
    let mut d = core_with("ab\ncd");
    assert!(d.toggle_extra_cursor(CursorPos { line: 1, col: 1 }));
    assert_eq!(d.multi_edit(MultiEditKind::Backspace), Some(true));
    assert_eq!(d.doc.to_text(), "ab\nd");
    assert_eq!(d.cursor, CursorPos { line: 0, col: 0 });
    assert_eq!(extra_positions(&d), vec![CursorPos { line: 1, col: 0 }]);

    // the main cursor at the text end deletes nothing and stays at the end
    let mut e = core_with("ab\ncd");
    e.cursor = CursorPos { line: 1, col: 2 };
    assert!(e.toggle_extra_cursor(CursorPos { line: 1, col: 0 }));
    assert_eq!(e.multi_edit(MultiEditKind::Delete), Some(true));
    assert_eq!(e.doc.to_text(), "ab\nd");
    assert_eq!(e.cursor, CursorPos { line: 1, col: 1 });

    // nothing to do anywhere
    let mut f = core_with("ab");
    f.extra_cursors = vec![ExtraCursor { cursor: CursorPos { line: 0, col: 2 }, anchor: None }];
    f.cursor = CursorPos { line: 0, col: 2 };
    assert_eq!(f.multi_edit(MultiEditKind::Delete), Some(false));
    assert_eq!(f.doc.to_text(), "ab");
    assert!(f.undo_stack.is_empty());
}

#[test]
fn multi_edit_multiline_payload_moves_bookmarks() {
    let mut c = core_with("a\nb\nc\nd");
    c.cursor = CursorPos { line: 3, col: 0 };
    assert!(c.toggle_bookmark());
    c.cursor = CursorPos { line: 0, col: 1 };
    assert!(c.toggle_extra_cursor(CursorPos { line: 2, col: 1 }));
    assert_eq!(c.multi_edit(MultiEditKind::Insert("x\ny")), Some(true));
    assert_eq!(c.doc.to_text(), "ax\ny\nb\ncx\ny\nd");
    assert_eq!(c.cursor, CursorPos { line: 1, col: 1 });
    assert_eq!(extra_positions(&c), vec![CursorPos { line: 4, col: 1 }]);
    assert_eq!(c.bookmarked_lines(), vec![5], "a mark below both insertions moves down twice");
}

#[test]
fn multi_edit_same_place_main_and_extra() {
    let mut c = core_with("ab");
    assert!(c.toggle_extra_cursor(CursorPos { line: 0, col: 1 }));
    c.cursor = CursorPos { line: 0, col: 1 };
    assert_eq!(c.multi_edit(MultiEditKind::Insert("xy")), Some(true));
    assert_eq!(c.doc.to_text(), "axyxyb");
    assert_eq!(c.cursor, CursorPos { line: 0, col: 5 });
    assert_eq!(extra_positions(&c), vec![CursorPos { line: 0, col: 3 }]);
}

#[test]
fn add_next_match_walks_word_occurrences_and_wraps() {
    let mut c = core_with("foo bar foo baz foo");
    c.cursor = CursorPos { line: 0, col: 1 };
    assert_eq!(c.add_next_match(), Ok(true));
    assert_eq!(
        c.extra_cursors,
        vec![ExtraCursor { cursor: CursorPos { line: 0, col: 11 }, anchor: Some(CursorPos { line: 0, col: 8 }) }]
    );
    assert_eq!(c.add_next_match(), Ok(true));
    assert_eq!(c.extra_cursors.len(), 2);
    assert_eq!(c.extra_cursors[1].cursor, CursorPos { line: 0, col: 19 });
    // the only occurrence left is the cursor's own word
    assert_eq!(c.add_next_match(), Err(EditErr::NoMoreMatch));
    assert_eq!(c.extra_cursors.len(), 2);
}

#[test]
fn add_next_match_uses_selection_and_guards() {
    let mut c = core_with("ab ab\nab");
    c.anchor = Some(CursorPos { line: 0, col: 0 });
    c.cursor = CursorPos { line: 0, col: 2 };
    assert_eq!(c.add_next_match(), Ok(true));
    assert_eq!(
        c.extra_cursors,
        vec![ExtraCursor { cursor: CursorPos { line: 0, col: 5 }, anchor: Some(CursorPos { line: 0, col: 3 }) }]
    );
    assert_eq!(c.add_next_match(), Ok(true));
    assert_eq!(c.extra_cursors[1].cursor, CursorPos { line: 1, col: 2 });

    // not on a word
    let mut d = core_with("a  b");
    d.cursor = CursorPos { line: 0, col: 2 };
    assert_eq!(d.add_next_match(), Err(EditErr::CursorNotOnWord));

    // refused during an IME composition
    let mut e = core_with("ab ab");
    e.ime_preedit("x".to_owned());
    assert_eq!(e.add_next_match(), Ok(false));
    assert!(!e.has_multi());

    // the occurrences found one after the other do not overlap
    let mut f = core_with("aaaa");
    f.anchor = Some(CursorPos { line: 0, col: 0 });
    f.cursor = CursorPos { line: 0, col: 2 };
    assert_eq!(f.add_next_match(), Ok(true));
    assert_eq!(f.extra_cursors[0].anchor, Some(CursorPos { line: 0, col: 2 }));
    assert_eq!(f.add_next_match(), Err(EditErr::NoMoreMatch));
}

#[test]
fn toggling_an_extra_cursor_twice_restores_the_list() {
    let mut c = core_with("abcd\nefgh\nijkl");
    assert!(c.toggle_extra_cursor(CursorPos { line: 0, col: 1 }));
    assert!(c.toggle_extra_cursor(CursorPos { line: 2, col: 3 }));
    let before = extra_positions(&c);
    assert!(c.toggle_extra_cursor(CursorPos { line: 1, col: 2 }));
    assert_eq!(extra_positions(&c).len(), 3);
    assert!(c.toggle_extra_cursor(CursorPos { line: 1, col: 2 }));
    assert_eq!(extra_positions(&c), before);
}
