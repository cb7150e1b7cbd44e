use luminatti::text_field::{InputEvent, KeyName, TextField};

fn typed(text: &str, multiline: bool) -> TextField {
    let mut field = TextField::new(multiline);
    field.replace_text_in_range(None, text);
    field
}

fn key(field: &mut TextField, key: KeyName) -> luminatti::text_field::KeyOutcome {
    field.handle_key_down(key, false, false, None, 0)
}

#[test]
fn typing_places_the_caret_after_the_text() {
    let field = typed("héllo", false);
    assert_eq!(field.text(), "héllo");
    assert_eq!(field.selected, (5, 5));
    assert_eq!(field.cursor_offset(), 5);
}

#[test]
fn backspace_and_delete_remove_one_character_or_the_selection() {
    let mut field = typed("abc", false);
    let outcome = key(&mut field, KeyName::Backspace);
    assert!(outcome.handled);
    assert!(matches!(outcome.events.as_slice(), [InputEvent::Changed]));
    assert_eq!(field.text(), "ab");
    field.move_to(0);
    let outcome = key(&mut field, KeyName::Backspace);
    assert!(outcome.events.is_empty());
    key(&mut field, KeyName::Delete);
    assert_eq!(field.text(), "b");
    field.select_all();
    key(&mut field, KeyName::Delete);
    assert_eq!(field.text(), "");
}

#[test]
fn arrows_move_and_shift_arrows_select() {
    let mut field = typed("abcd", false);
    key(&mut field, KeyName::Left);
    assert_eq!(field.selected, (3, 3));
    field.handle_key_down(KeyName::Left, true, false, None, 0);
    field.handle_key_down(KeyName::Left, true, false, None, 0);
    assert_eq!(field.selected, (1, 3));
    assert!(field.reversed);
    key(&mut field, KeyName::Right);
    assert_eq!(field.selected, (3, 3));
    key(&mut field, KeyName::Home);
    assert_eq!(field.selected, (0, 0));
    key(&mut field, KeyName::End);
    assert_eq!(field.selected, (4, 4));
}

#[test]
fn home_and_end_stop_at_line_breaks() {
    let mut field = typed("one\ntwo\nthree", true);
    field.move_to(6);
    key(&mut field, KeyName::Home);
    assert_eq!(field.cursor_offset(), 4);
    key(&mut field, KeyName::End);
    assert_eq!(field.cursor_offset(), 7);
    field.handle_key_down(KeyName::Up, false, false, None, 1);
    assert_eq!(field.cursor_offset(), 1);
}

#[test]
fn enter_submits_a_valid_glob_and_clears() {
    let mut field = typed("  *.test.ts ", false);
    let outcome = key(&mut field, KeyName::Enter);
    assert!(matches!(outcome.events.as_slice(), [InputEvent::Submit(p)] if p == "*.test.ts"));
    assert_eq!(field.text(), "");
}

#[test]
fn enter_rejects_empty_and_invalid_globs() {
    let mut field = typed("   ", false);
    let outcome = key(&mut field, KeyName::Enter);
    assert!(matches!(outcome.events.as_slice(), [InputEvent::Invalid(m)] if m == "Enter a glob pattern first."));
    let mut field = typed("a[", false);
    let outcome = key(&mut field, KeyName::Enter);
    assert!(matches!(outcome.events.as_slice(), [InputEvent::Invalid(m)] if !m.is_empty()));
    assert_eq!(field.text(), "a[");
}

#[test]
fn multiline_enter_breaks_the_line_and_command_enter_submits() {
    let mut field = typed("note", true);
    key(&mut field, KeyName::Enter);
    assert_eq!(field.text(), "note\n");
    let outcome = field.handle_key_down(KeyName::Enter, false, true, None, 0);
    assert!(matches!(outcome.events.as_slice(), [InputEvent::Submit(t)] if t == "note"));
    assert_eq!(field.text(), "note\n");
}

#[test]
fn escape_dismisses() {
    let mut field = typed("x", false);
    let outcome = key(&mut field, KeyName::Escape);
    assert!(matches!(outcome.events.as_slice(), [InputEvent::Dismiss]));
    assert!(!key(&mut field, KeyName::Other).handled);
    assert!(!key(&mut field, KeyName::Char('a')).handled);
}

#[test]
fn clipboard_commands_copy_cut_and_paste() {
    let mut field = typed("hello world", false);
    field.handle_key_down(KeyName::Char('a'), false, true, None, 0);
    let outcome = field.handle_key_down(KeyName::Char('c'), false, true, None, 0);
    assert_eq!(outcome.copied.as_deref(), Some("hello world"));
    let outcome = field.handle_key_down(KeyName::Char('x'), false, true, None, 0);
    assert_eq!(outcome.copied.as_deref(), Some("hello world"));
    assert_eq!(field.text(), "");
    field.handle_key_down(KeyName::Char('v'), false, true, Some("a\r\nb\rc".to_string()), 0);
    assert_eq!(field.text(), "abc");
    let mut notes = TextField::new(true);
    notes.handle_key_down(KeyName::Char('v'), false, true, Some("a\r\nb\rc".to_string()), 0);
    assert_eq!(notes.text(), "a\nb\nc");
}

#[test]
fn input_methods_compose_and_offsets_convert_to_utf16() {
    let mut field = TextField::new(false);
    field.replace_and_mark_text_in_range(None, "ni", None);
    assert_eq!(field.marked, Some((0, 2)));
    field.replace_text_in_range(None, "你");
    assert_eq!(field.text(), "你");
    assert_eq!(field.marked, None);
    field.replace_text_in_range(None, "😀x");
    assert_eq!(field.offset_to_utf16(2), 3);
    assert_eq!(field.offset_from_utf16(3), 2);
    assert_eq!(field.offset_from_utf16(100), 3);
    assert_eq!(field.text_for_range(1, 2), "😀");
    field.unmark_text();
    field.clear();
    assert_eq!(field.text(), "");
}
