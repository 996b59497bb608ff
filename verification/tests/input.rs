use notetaker::editor_core::input_event::{Key, KeyPress, Mods};
use notetaker::editor_core::user_mode::UserMode;

#[test]
fn empty_mods_hold_nothing() {
    let m = Mods::empty();
    assert!(!m.contains(Mods::SHIFT));
    assert!(!m.contains(Mods::CTRL));
    assert!(!m.contains(Mods::ALT));
    assert!(!m.contains(Mods::SUPER));
}

#[test]
fn with_adds_a_modifier() {
    let mut m = Mods::empty();
    m.with(Mods::CTRL);
    assert!(m.contains(Mods::CTRL));
    assert!(!m.contains(Mods::SHIFT));
    m.with(Mods::SHIFT);
    assert!(m.contains(Mods::CTRL));
    assert!(m.contains(Mods::SHIFT));
    assert!(m.contains(Mods::CTRL | Mods::ALT));
}

#[test]
fn with_is_idempotent() {
    let mut once = Mods::empty();
    once.with(Mods::ALT);
    let mut twice = Mods::empty();
    twice.with(Mods::ALT);
    twice.with(Mods::ALT);
    assert_eq!(once, twice);
}

#[test]
fn with_mask_sharing_a_held_bit_changes_nothing() {
    let mut m = Mods::empty();
    m.with(Mods::SHIFT);
    let before = m;
    m.with(Mods::SHIFT | Mods::SUPER);
    assert_eq!(m, before);
    assert!(!m.contains(Mods::SUPER));
}

#[test]
fn modifier_bits() {
    assert_eq!(Mods::SHIFT, 1);
    assert_eq!(Mods::CTRL, 2);
    assert_eq!(Mods::ALT, 4);
    assert_eq!(Mods::SUPER, 8);
}

#[test]
fn key_press_equality_is_structural() {
    let a = KeyPress { key: Key::Character("a".to_string()), mods: Mods::empty() };
    let b = KeyPress { key: Key::Character("a".to_string()), mods: Mods::empty() };
    let c = KeyPress { key: Key::Character("b".to_string()), mods: Mods::empty() };
    assert_eq!(a, b);
    assert_ne!(a, c);
    assert!(a.same_as(&b));
    assert!(!a.same_as(&c));
    assert_eq!(a.duplicate(), a);
}

#[test]
fn user_mode_same_as() {
    assert!(UserMode::Normal.same_as(&UserMode::Normal));
    assert!(!UserMode::Normal.same_as(&UserMode::Insert));
}
