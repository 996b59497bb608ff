use notetaker::editor_core::buffer::Buffer as ShownBuffer;
use notetaker::editor_core::text_buffer::{Buffer, CursorDirection};

fn text(b: &Buffer) -> String {
    b.rope.to_string()
}

#[test]
fn new_buffer_is_empty() {
    let b = Buffer::new();
    assert_eq!(text(&b), "");
    assert_eq!(b.cursor(), 0);
}

#[test]
fn new_from_text_keeps_text() {
    let b = Buffer::new_from_text("hello\nworld");
    assert_eq!(text(&b), "hello\nworld");
    assert_eq!(b.cursor(), 0);
}

#[test]
fn insert_moves_cursor_past_char() {
    let mut b = Buffer::new();
    b.insert('a');
    b.insert('b');
    assert_eq!(text(&b), "ab");
    assert_eq!(b.cursor(), 2);
    b.move_cursor(CursorDirection::Left);
    b.insert('x');
    assert_eq!(text(&b), "axb");
    assert_eq!(b.cursor(), 2);
}

#[test]
fn cursor_stops_at_both_ends() {
    let mut b = Buffer::new_from_text("ab");
    b.move_cursor(CursorDirection::Left);
    assert_eq!(b.cursor(), 0);
    b.move_cursor(CursorDirection::Right);
    b.move_cursor(CursorDirection::Right);
    b.move_cursor(CursorDirection::Right);
    assert_eq!(b.cursor(), 2);
}

#[test]
fn backspace_undoes_insert() {
    let mut b = Buffer::new_from_text("héllo");
    b.move_cursor(CursorDirection::Right);
    b.move_cursor(CursorDirection::Right);
    b.insert('ß');
    assert_eq!(text(&b), "héßllo");
    b.backspace();
    assert_eq!(text(&b), "héllo");
    assert_eq!(b.cursor(), 2);
}

#[test]
fn backspace_at_start_does_nothing() {
    let mut b = Buffer::new_from_text("abc");
    b.backspace();
    assert_eq!(text(&b), "abc");
    assert_eq!(b.cursor(), 0);
}

#[test]
fn delete_removes_char_under_cursor() {
    let mut b = Buffer::new_from_text("abc");
    b.move_cursor(CursorDirection::Right);
    b.delete();
    assert_eq!(text(&b), "ac");
    assert_eq!(b.cursor(), 1);
}

#[test]
fn delete_at_end_or_on_empty_does_nothing() {
    let mut b = Buffer::new_from_text("ab");
    b.move_cursor(CursorDirection::Right);
    b.move_cursor(CursorDirection::Right);
    b.delete();
    assert_eq!(text(&b), "ab");
    let mut e = Buffer::new();
    e.delete();
    assert_eq!(text(&e), "");
}

#[test]
fn shown_buffer_starts_empty() {
    let b = ShownBuffer::new();
    assert_eq!(b.get_text(), "");
}
