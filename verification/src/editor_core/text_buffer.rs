//! An editable text buffer: a rope of chars and a cursor between them.
use crate::editor_core::rope_text::{
    rope_chars, rope_from_str, rope_insert_char, rope_len_chars, rope_new, rope_remove_char,
};
use ropey::Rope;
use vstd::prelude::*;

verus! {

/// A direction in which the cursor moves by one char.
pub enum CursorDirection {
    Left,
    Right,
}

/// The text and cursor after moving the cursor one char in `dir`; it stays
/// put at either end of the text.
pub open spec fn moved(text: Seq<char>, cursor: nat, dir: CursorDirection) -> nat {
    match dir {
        CursorDirection::Left => if cursor == 0 {
            0
        } else {
            (cursor - 1) as nat
        },
        CursorDirection::Right => if cursor >= text.len() {
            cursor
        } else {
            cursor + 1
        },
    }
}

/// The text and cursor after typing `c` at the cursor.
pub open spec fn typed(text: Seq<char>, cursor: nat, c: char) -> (Seq<char>, nat) {
    (text.insert(cursor as int, c), cursor + 1)
}

/// The text and cursor after erasing the char before the cursor, if any.
pub open spec fn backspaced(text: Seq<char>, cursor: nat) -> (Seq<char>, nat) {
    if cursor == 0 {
        (text, cursor)
    } else {
        (text.remove(cursor - 1), (cursor - 1) as nat)
    }
}

/// The text after erasing the char under the cursor, if any.
pub open spec fn deleted(text: Seq<char>, cursor: nat) -> Seq<char> {
    if cursor >= text.len() {
        text
    } else {
        text.remove(cursor as int)
    }
}

/// A document being edited: its text, and a cursor between two chars.
pub struct Buffer {
    pub rope: Rope,
    cursor: usize,
}

impl Buffer {
    /// The chars of the buffer.
    pub closed spec fn text(&self) -> Seq<char> {
        rope_chars(self.rope)
    }

    /// The char index of the cursor.
    pub closed spec fn cursor_pos(&self) -> nat {
        self.cursor as nat
    }

    /// An empty buffer, with the cursor at the start.
    pub fn new() -> (b: Self)
        ensures
            b.text() == Seq::<char>::empty(),
            b.cursor_pos() == 0,
    {
        Self { rope: rope_new(), cursor: 0 }
    }

    /// A buffer holding `text` (the contents of a file), with the cursor at the start.
    pub fn new_from_text(text: &str) -> (b: Self)
        ensures
            b.text() == text@,
            b.cursor_pos() == 0,
    {
        Self { rope: rope_from_str(text), cursor: 0 }
    }

    /// The cursor's char index.
    pub fn cursor(&self) -> (c: usize)
        ensures
            c == self.cursor_pos(),
    {
        self.cursor
    }

    /// Moves the cursor one char to the left or right, not past either end.
    pub fn move_cursor(&mut self, dir: CursorDirection)
        ensures
            final(self).text() == old(self).text(),
            final(self).cursor_pos() == moved(old(self).text(), old(self).cursor_pos(), dir),
            dir is Left && old(self).cursor_pos() > 0 ==> final(self).cursor_pos() == old(
                self).cursor_pos() - 1,
            dir is Left && old(self).cursor_pos() == 0 ==> final(self).cursor_pos() == 0,
            dir is Right && old(self).cursor_pos() < old(self).text().len() ==> final(
                self).cursor_pos() == old(self).cursor_pos() + 1,
            dir is Right && old(self).cursor_pos() >= old(self).text().len() ==> final(
                self).cursor_pos() == old(self).cursor_pos(),
    {
        match dir {
            CursorDirection::Left => {
                if self.cursor == 0 {
                    return;
                }
                self.cursor -= 1;
            },
            CursorDirection::Right => {
                if self.cursor >= rope_len_chars(&self.rope) {
                    return;
                }
                self.cursor += 1;
            },
        }
    }

    /// Types `c` at the cursor, which moves past it.
    pub fn insert(&mut self, c: char)
        requires
            old(self).cursor_pos() <= old(self).text().len(),
        ensures
            (final(self).text(), final(self).cursor_pos()) == typed(
                old(self).text(),
                old(self).cursor_pos(),
                c,
            ),
            final(self).text() == old(self).text().insert(old(self).cursor_pos() as int, c),
            final(self).cursor_pos() == old(self).cursor_pos() + 1,
    {
        rope_insert_char(&mut self.rope, self.cursor, c);
        self.move_cursor(CursorDirection::Right);
    }

    /// Erases the char before the cursor, which moves back over it.
    pub fn backspace(&mut self)
        requires
            old(self).cursor_pos() <= old(self).text().len(),
        ensures
            (final(self).text(), final(self).cursor_pos()) == backspaced(
                old(self).text(),
                old(self).cursor_pos(),
            ),
            old(self).cursor_pos() > 0 ==> final(self).text() == old(self).text().remove(
                old(self).cursor_pos() - 1,
            ) && final(self).cursor_pos() == old(self).cursor_pos() - 1,
            old(self).cursor_pos() == 0 ==> final(self).text() == old(self).text()
                && final(self).cursor_pos() == 0,
    {
        if self.cursor == 0 {
            return;
        }
        let target = self.cursor - 1;
        rope_remove_char(&mut self.rope, target);
        self.move_cursor(CursorDirection::Left);
    }

    /// Erases the char under the cursor, if any; the cursor stays.
    pub fn delete(&mut self)
        ensures
            final(self).text() == deleted(old(self).text(), old(self).cursor_pos()),
            final(self).cursor_pos() == old(self).cursor_pos(),
            old(self).cursor_pos() < old(self).text().len() ==> final(self).text() == old(
                self).text().remove(old(self).cursor_pos() as int),
            old(self).cursor_pos() >= old(self).text().len() ==> final(self).text() == old(
                self).text(),
    {
        let len = rope_len_chars(&self.rope);
        if self.cursor >= len || len == 0 {
            return;
        }
        rope_remove_char(&mut self.rope, self.cursor);
    }
}

/// Typing a char and erasing it again with backspace gives back the text
/// and the cursor.
pub proof fn lemma_backspace_undoes_insert(text: Seq<char>, cursor: nat, c: char)
    requires
        cursor <= text.len(),
    ensures
        backspaced(typed(text, cursor, c).0, typed(text, cursor, c).1) == (text, cursor),
{
    assert(text.insert(cursor as int, c).remove(cursor as int) =~= text);
}

/// The cursor never leaves the text: it stays between its first and last char.
pub proof fn lemma_cursor_stays_in_text(text: Seq<char>, cursor: nat, dir: CursorDirection, c: char)
    requires
        cursor <= text.len(),
    ensures
        moved(text, cursor, dir) <= text.len(),
        typed(text, cursor, c).1 <= typed(text, cursor, c).0.len(),
        backspaced(text, cursor).1 <= backspaced(text, cursor).0.len(),
        cursor <= deleted(text, cursor).len() || cursor == text.len(),
{
}


/// Delete erases exactly the char under the cursor when there is one, and
/// nothing otherwise; the text then has one char less.
pub proof fn lemma_delete_erases_char_under_cursor(text: Seq<char>, cursor: nat)
    ensures
        cursor < text.len() ==> deleted(text, cursor) == text.remove(cursor as int)
            && deleted(text, cursor).len() == text.len() - 1,
        cursor >= text.len() ==> deleted(text, cursor) == text,
{
}

/// Typing a char, moving back over it and deleting gives back the text and
/// the cursor.
pub proof fn lemma_delete_undoes_insert(text: Seq<char>, cursor: nat, c: char)
    requires
        cursor <= text.len(),
    ensures
        ({
            let (t1, c1) = typed(text, cursor, c);
            let c2 = moved(t1, c1, CursorDirection::Left);
            deleted(t1, c2) == text && c2 == cursor
        }),
{
    assert(text.insert(cursor as int, c).remove(cursor as int) =~= text);
}

} // verus!
