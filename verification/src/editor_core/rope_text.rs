//! The text storage of buffers: `ropey::Rope`, seen as the sequence of
//! chars it holds.
use ropey::Rope;
use vstd::prelude::*;

verus! {

#[verifier::external_type_specification]
#[verifier::external_body]
pub struct ExRope(Rope);

/// The chars a rope holds, in order.
pub uninterp spec fn rope_chars(rope: Rope) -> Seq<char>;

/// `Rope::new`: an empty rope.
#[verifier::external_body]
pub(crate) fn rope_new() -> (r: Rope)
    ensures
        rope_chars(r) == Seq::<char>::empty(),
{
    Rope::new()
}

/// `Rope::from_str`: a rope holding the chars of `text`.
#[verifier::external_body]
pub(crate) fn rope_from_str(text: &str) -> (r: Rope)
    ensures
        rope_chars(r) == text@,
{
    Rope::from_str(text)
}

/// `Rope::len_chars`: the number of chars held.
#[verifier::external_body]
pub(crate) fn rope_len_chars(rope: &Rope) -> (n: usize)
    ensures
        n == rope_chars(*rope).len(),
{
    rope.len_chars()
}

/// `Rope::insert_char`: puts `ch` at char index `idx`; it panics past the end.
#[verifier::external_body]
pub(crate) fn rope_insert_char(rope: &mut Rope, idx: usize, ch: char)
    requires
        idx <= rope_chars(*old(rope)).len(),
    ensures
        rope_chars(*final(rope)) == rope_chars(*old(rope)).insert(idx as int, ch),
{
    rope.insert_char(idx, ch)
}

/// `Rope::remove` on the one-char range `idx..=idx`; it panics unless `idx`
/// names a char.
#[verifier::external_body]
pub(crate) fn rope_remove_char(rope: &mut Rope, idx: usize)
    requires
        idx < rope_chars(*old(rope)).len(),
    ensures
        rope_chars(*final(rope)) == rope_chars(*old(rope)).remove(idx as int),
{
    rope.remove(idx..=idx)
}

/// `Rope::clone`: a rope holding the same chars (sharing its nodes).
#[verifier::external_body]
pub(crate) fn rope_clone(rope: &Rope) -> (r: Rope)
    ensures
        rope_chars(r) == rope_chars(*rope),
{
    rope.clone()
}

/// `Rope`'s `Display`, through `to_string`: the held chars as a `String`.
#[verifier::external_body]
pub(crate) fn rope_to_string(rope: &Rope) -> (s: String)
    ensures
        s@ == rope_chars(*rope),
{
    rope.to_string()
}

} // verus!
