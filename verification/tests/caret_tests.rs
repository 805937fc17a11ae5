use editpad::caret::{CARET_ACTIVE_MS, CARET_BLINK_MS, SCROLLBAR_FADE_MS, SCROLLBAR_IDLE_MS};
use editpad::document::Document;
use editpad::editor::{CursorPos, EditErr, EditorCore};

fn core_with(text: &str) -> EditorCore {
    let mut c = EditorCore::default();
    c.reset_document(Document::from_str(text));
    c
}

#[test]
fn caret_blink_phase_toggles_and_activity_forces_visible() {
    let mut c = core_with("hello");
    let t0: u64 = 1_000_000;
    assert!(c.caret_visible_at(t0), "visible at first");

    // a tick flips the phase
    c.tick_blink_at(t0);
    assert!(!c.caret_visible_at(t0), "hidden by the phase when idle");
    c.tick_blink_at(t0 + CARET_BLINK_MS);
    assert!(c.caret_visible_at(t0 + CARET_BLINK_MS));

    // a tick sooner than a half period does not flip it
    c.tick_blink_at(t0 + CARET_BLINK_MS + 33);
    assert!(c.caret_visible_at(t0 + CARET_BLINK_MS + 33), "quick ticks do not speed the blink up");

    // activity keeps it drawn for a while, whatever the phase
    c.poke_caret_at(t0 + CARET_BLINK_MS * 2);
    assert!(c.caret_visible_at(t0 + CARET_BLINK_MS * 2));
    c.tick_blink_at(t0 + CARET_BLINK_MS * 2);
    assert!(c.caret_visible_at(t0 + CARET_BLINK_MS * 2 + 1), "drawn within the activity window");
    assert!(c.caret_visible_at(t0 + CARET_BLINK_MS * 2 + CARET_ACTIVE_MS - 1));
}

#[test]
fn caret_hidden_during_composition_and_phase_after_activity() {
    let mut c = core_with("x");
    c.poke_caret_at(100);
    c.ime_preedit("pin".to_owned());
    assert!(!c.caret_visible_at(100), "no caret while composing");
    c.ime_preedit(String::new());
    assert!(c.caret_visible_at(100));
    // an idle tick long after the activity flips the phase off
    c.tick_blink_at(100 + CARET_ACTIVE_MS + CARET_BLINK_MS);
    assert!(!c.caret_visible_at(100 + CARET_ACTIVE_MS + CARET_BLINK_MS));
}

#[test]
fn scrollbar_idle_and_fade_window() {
    let mut c = core_with("x");
    assert_eq!(c.scrollbar_idle_ms(10), None);
    assert!(!c.scrollbar_fading_at(10));
    c.touch_scrollbar_activity_at(1000);
    assert_eq!(c.scrollbar_idle_ms(1500), Some(500));
    assert!(!c.scrollbar_fading_at(1000 + SCROLLBAR_IDLE_MS));
    assert!(c.scrollbar_fading_at(1000 + SCROLLBAR_IDLE_MS + 1));
    assert!(!c.scrollbar_fading_at(1000 + SCROLLBAR_IDLE_MS + SCROLLBAR_FADE_MS));
    // a clock reading before the activity counts as no time passed
    assert_eq!(c.scrollbar_idle_ms(900), Some(0));
}

#[test]
fn restore_view_places_cursor_without_side_effects() {
    let mut c = core_with("第一行\r\nsecond\r\n第三行");
    c.restore_view(usize::MAX, usize::MAX);
    assert_eq!(c.cursor, CursorPos { line: 2, col: 3 }, "clamped to the last line's end (\\r not counted)");
    c.restore_view(1, 3);
    assert_eq!(c.cursor, CursorPos { line: 1, col: 3 });
    assert!(c.undo_stack.is_empty() && c.redo_stack.is_empty());
    assert!(c.anchor.is_none());
    let mut empty = core_with("");
    empty.restore_view(9, 9);
    assert_eq!(empty.cursor, CursorPos { line: 0, col: 0 });
}

#[test]
fn tool_output_replaces_selection_and_reselects() {
    let mut c = core_with("say hello\nbye");
    // no selection
    assert_eq!(c.tool_source(), Err(EditErr::NoSelection));
    assert_eq!(c.apply_tool_output("x"), Err(EditErr::NoSelection));
    c.anchor = Some(CursorPos { line: 0, col: 4 });
    c.cursor = CursorPos { line: 0, col: 9 };
    assert_eq!(c.tool_source(), Ok("hello".to_string()));
    // the same text: nothing happens
    assert_eq!(c.apply_tool_output("hello"), Ok(false));
    assert!(c.undo_stack.is_empty());
    // another text replaces the selection and stays selected
    assert_eq!(c.apply_tool_output("aGVsbG8=\nx"), Ok(true));
    assert_eq!(c.doc.to_text(), "say aGVsbG8=\nx\nbye");
    assert_eq!(c.anchor, Some(CursorPos { line: 0, col: 4 }));
    assert_eq!(c.cursor, CursorPos { line: 1, col: 1 });
    assert!(c.undo());
    assert_eq!(c.doc.to_text(), "say hello\nbye");
}
