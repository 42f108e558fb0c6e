use rscribus::format::{AttrValue, TextAttribute};
use rscribus::text_box::{BaseFont, Key, KeyAction, TextAlign, TextBox};
use rscribus::utf8_text::{next_char_boundary, prev_char_boundary};

fn bold_at(tb: &TextBox, pos: usize) -> bool {
    tb.get_attr_at(pos).bold
}

#[test]
fn apply_format_replaces_overlapping_spans_of_same_kind() {
    let mut tb = TextBox::new("hello world".to_string());
    tb.apply_format(0, 5, AttrValue::Bold(true));
    tb.apply_format(3, 8, AttrValue::Bold(false));

    assert_eq!(tb.attributes.len(), 2);
    assert!(matches!(tb.attributes[0].value, AttrValue::Bold(true)));
    assert_eq!((tb.attributes[0].start, tb.attributes[0].end), (0, 3));
    assert!(matches!(tb.attributes[1].value, AttrValue::Bold(false)));
    assert_eq!((tb.attributes[1].start, tb.attributes[1].end), (3, 8));
}

#[test]
fn clear_format_splits_overlapping_ranges() {
    let mut tb = TextBox::new("hello world".to_string());
    tb.apply_format(0, tb.text.len(), AttrValue::Underline(true));
    tb.clear_format(2, 8);

    assert_eq!(tb.attributes.len(), 2);
    assert_eq!((tb.attributes[0].start, tb.attributes[0].end), (0, 2));
    assert_eq!((tb.attributes[1].start, tb.attributes[1].end), (8, tb.text.len() as u32));
}

#[test]
fn effective_snapshot_falls_back_to_base_font_description() {
    let tb = TextBox::new("hello".to_string());
    // What the base font "Serif Bold Italic 14" sets.
    let base = BaseFont {
        family: Some("Serif".to_string()),
        size_pt: 14.0f64.to_bits(),
        bold: true,
        italic: true,
    };
    let snap = tb.effective_snapshot_with(0, &base);

    assert_eq!(snap.family.as_deref(), Some("Serif"));
    assert_eq!(snap.size_pt.map(f64::from_bits), Some(14.0));
    assert!(snap.bold);
    assert!(snap.italic);
}

#[test]
fn undo_and_redo_restore_text_attributes_and_alignment() {
    let mut tb = TextBox::new("hello".to_string());
    tb.alignment = TextAlign::Left;
    tb.cursor_pos = tb.text.len();
    tb.push_history();
    tb.insert_text(" world");
    tb.apply_format(0, 5, AttrValue::Bold(true));
    tb.alignment = TextAlign::Center;

    assert!(tb.undo());
    assert_eq!(tb.text, "hello");
    assert!(tb.attributes.is_empty());
    assert_eq!(tb.alignment, TextAlign::Left);

    assert!(tb.redo());
    assert_eq!(tb.text, "hello world");
    assert_eq!(tb.alignment, TextAlign::Center);
    assert_eq!(tb.attributes.len(), 1);
}

#[test]
fn explicit_span_overrides_base_font() {
    let mut tb = TextBox::new("hello".to_string());
    tb.apply_format(0, 5, AttrValue::Bold(false));
    tb.apply_format(0, 2, AttrValue::Family("Mono".to_string()));
    let base = BaseFont { family: Some("Serif".to_string()), size_pt: 11.0f64.to_bits(), bold: true, italic: false };
    let snap = tb.effective_snapshot_with(1, &base);
    assert_eq!(snap.family.as_deref(), Some("Mono"));
    assert!(!snap.bold);
    let snap = tb.effective_snapshot_with(3, &base);
    assert_eq!(snap.family.as_deref(), Some("Serif"));
    assert_eq!(snap.size_pt.map(f64::from_bits), Some(11.0));
}

#[test]
fn char_boundaries_step_over_multibyte_characters() {
    let s = "aé€b";
    assert_eq!(next_char_boundary(s, 0), 1);
    assert_eq!(next_char_boundary(s, 1), 3);
    assert_eq!(next_char_boundary(s, 3), 6);
    assert_eq!(next_char_boundary(s, 7), 7);
    assert_eq!(prev_char_boundary(s, 7), 6);
    assert_eq!(prev_char_boundary(s, 6), 3);
    assert_eq!(prev_char_boundary(s, 1), 0);
    assert_eq!(prev_char_boundary(s, 0), 0);
}

#[test]
fn typing_shifts_later_spans() {
    let mut tb = TextBox::new("hello world".to_string());
    tb.apply_format(6, 11, AttrValue::Italic(true));
    tb.cursor_pos = 0;
    tb.insert_text(">> ");
    assert_eq!(tb.text, ">> hello world");
    assert_eq!((tb.attributes[0].start, tb.attributes[0].end), (9, 14));
    assert_eq!(tb.cursor_pos, 3);
}

#[test]
fn backspace_undoes_typing() {
    let mut tb = TextBox::new("abc".to_string());
    tb.cursor_pos = 1;
    tb.insert_char('é');
    assert_eq!(tb.text, "aébc");
    tb.delete_backward();
    assert_eq!(tb.text, "abc");
    assert_eq!(tb.cursor_pos, 1);
}

#[test]
fn deleting_a_selection_removes_its_bytes_and_spans() {
    let mut tb = TextBox::new("hello brave world".to_string());
    tb.apply_format(6, 11, AttrValue::Bold(true));
    tb.apply_format(12, 17, AttrValue::Underline(true));
    tb.selection_anchor = Some(5);
    tb.cursor_pos = 11;
    assert!(tb.delete_selection());
    assert_eq!(tb.text, "hello world");
    assert_eq!(tb.attributes.len(), 1);
    assert_eq!((tb.attributes[0].start, tb.attributes[0].end), (6, 11));
    assert_eq!(tb.cursor_pos, 5);
    assert_eq!(tb.selection_anchor, None);
    assert!(!tb.delete_selection());
}

#[test]
fn delete_forward_removes_next_character() {
    let mut tb = TextBox::new("a€b".to_string());
    tb.cursor_pos = 1;
    tb.delete_forward();
    assert_eq!(tb.text, "ab");
    assert_eq!(tb.cursor_pos, 1);
}

#[test]
fn select_all_and_copy() {
    let mut tb = TextBox::new("copy me".to_string());
    assert_eq!(tb.copy_selection(), None);
    tb.select_all();
    assert_eq!(tb.selection_range(), Some((0, 7)));
    assert_eq!(tb.copy_selection().as_deref(), Some("copy me"));
}

#[test]
fn word_selection_around_cursor() {
    let mut tb = TextBox::new("one two three".to_string());
    tb.cursor_pos = 5;
    assert_eq!(tb.selection_or_word_range(), (4, 7));
    tb.select_word_at(9);
    assert_eq!(tb.selection_range(), Some((8, 13)));
}

#[test]
fn cursor_moves_and_extends_selection() {
    let mut tb = TextBox::new("ab\ncd".to_string());
    tb.cursor_pos = 4;
    tb.move_cursor_home(false);
    assert_eq!(tb.cursor_pos, 3);
    tb.move_cursor_end(true);
    assert_eq!(tb.cursor_pos, 5);
    assert_eq!(tb.selection_range(), Some((3, 5)));
    tb.move_cursor_left(false);
    assert_eq!(tb.selection_anchor, None);
    assert_eq!(tb.cursor_pos, 3);
    tb.move_cursor_right(false);
    assert_eq!(tb.cursor_pos, 4);
}

#[test]
fn keys_edit_and_report_actions() {
    let mut tb = TextBox::new("hi".to_string());
    tb.cursor_pos = 2;
    let (a, copied) = tb.handle_key(Key::Other(Some('!')), false, false);
    assert!(matches!(a, KeyAction::Handled));
    assert!(copied.is_none());
    assert_eq!(tb.text, "hi!");
    let (a, _) = tb.handle_key(Key::Return, false, false);
    assert!(matches!(a, KeyAction::Handled));
    assert_eq!(tb.text, "hi!\n");
    let (a, _) = tb.handle_key(Key::Escape, false, false);
    assert!(matches!(a, KeyAction::ExitEdit));
    let (a, _) = tb.handle_key(Key::Up, false, true);
    assert!(matches!(a, KeyAction::MoveVertical { up: true, extend: true }));
    let (a, _) = tb.handle_key(Key::Other(Some('b')), true, false);
    assert!(matches!(a, KeyAction::FormatBold));
    let (a, _) = tb.handle_key(Key::Other(Some('z')), true, true);
    assert!(matches!(a, KeyAction::Redo));
    let (a, copied) = tb.handle_key(Key::Other(Some('a')), true, false);
    assert!(matches!(a, KeyAction::Handled));
    assert!(copied.is_none());
    let (a, copied) = tb.handle_key(Key::Other(Some('x')), true, false);
    assert!(matches!(a, KeyAction::RequestCut));
    assert_eq!(copied.as_deref(), Some("hi!\n"));
}

#[test]
fn page_number_placeholders_are_replaced() {
    let tb = TextBox::new("Page {{page}} of {{numpages}}".to_string());
    let out = tb.substitute_page_numbers(3, 12);
    assert_eq!(out.text, "Page 3 of 12");
}

#[test]
fn history_keeps_at_most_thirty_checkpoints() {
    let mut tb = TextBox::new(String::new());
    for i in 0..40 {
        tb.cursor_pos = tb.text.len();
        tb.insert_char(char::from(b'a' + (i % 26) as u8));
        tb.push_history();
    }
    assert_eq!(tb.undo_stack.len(), 30);
    let mut undone = 0;
    while tb.undo() {
        undone += 1;
    }
    assert_eq!(undone, 30);
}

#[test]
fn repeated_checkpoint_is_not_stored_twice() {
    let mut tb = TextBox::new("same".to_string());
    tb.push_history();
    tb.push_history();
    assert_eq!(tb.undo_stack.len(), 1);
}

#[test]
fn attribute_lookup_uses_last_matching_span() {
    let mut tb = TextBox::new("abcdef".to_string());
    tb.attributes.push(TextAttribute { start: 0, end: 6, value: AttrValue::Bold(true) });
    tb.attributes.push(TextAttribute { start: 2, end: 4, value: AttrValue::Bold(false) });
    assert!(bold_at(&tb, 1));
    assert!(!bold_at(&tb, 3));
    assert!(bold_at(&tb, 5));
}

#[test]
fn checkpoint_is_taken_when_only_span_values_change() {
    let mut tb = TextBox::new("same".to_string());
    tb.apply_format(0, 4, AttrValue::Bold(true));
    tb.push_history();
    tb.redo_stack.push(tb.undo_stack[0].clone());
    if let AttrValue::Bold(b) = &mut tb.attributes[0].value {
        *b = false;
    }
    tb.push_history();
    assert_eq!(tb.undo_stack.len(), 2);
    assert!(tb.redo_stack.is_empty());
    tb.attributes[0].value = AttrValue::Family("Serif".to_string());
    tb.push_history();
    tb.push_history();
    assert_eq!(tb.undo_stack.len(), 3);
}

#[test]
fn deleting_without_a_selection_changes_nothing() {
    let mut tb = TextBox::new("é".to_string());
    tb.cursor_pos = 1;
    assert!(!tb.delete_selection());
    assert_eq!(tb.text, "é");
    assert_eq!(tb.cursor_pos, 1);
}

#[test]
fn a_space_separates_words() {
    let mut tb = TextBox::new("hello world".to_string());
    tb.select_word_at(7);
    assert_eq!(tb.selection_range(), Some((6, 11)));
    tb.select_word_at(2);
    assert_eq!(tb.selection_range(), Some((0, 5)));
}
