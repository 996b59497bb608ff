use vstd::prelude::*;

verus! {

/// An input the editor reacts to.
#[derive(Debug, Clone)]
pub enum InputEvent {
    KeyPress(KeyPress),
}

/// A key pressed while some modifiers were held.
#[derive(Debug, Clone, PartialEq, Eq, Hash)]
pub struct KeyPress {
    pub key: Key,
    pub mods: Mods,
}

/// A key as a mathematical value: a character key holds its text as chars.
pub enum KeyModel {
    Character(Seq<char>),
    Space,
    Enter,
    Escape,
    Backspace,
    Tab,
    Delete,
    F(u8),
    Left,
    Right,
    Up,
    Down,
}

impl View for Key {
    type V = KeyModel;

    open spec fn view(&self) -> KeyModel {
        match self {
            Key::Character(s) => KeyModel::Character(s@),
            Key::Space => KeyModel::Space,
            Key::Enter => KeyModel::Enter,
            Key::Escape => KeyModel::Escape,
            Key::Backspace => KeyModel::Backspace,
            Key::Tab => KeyModel::Tab,
            Key::Delete => KeyModel::Delete,
            Key::F(n) => KeyModel::F(*n),
            Key::Left => KeyModel::Left,
            Key::Right => KeyModel::Right,
            Key::Up => KeyModel::Up,
            Key::Down => KeyModel::Down,
        }
    }
}

impl View for KeyPress {
    type V = (KeyModel, u8);

    open spec fn view(&self) -> (KeyModel, u8) {
        (self.key@, self.mods@)
    }
}

impl Key {
    /// Whether two keys are the same key (character keys: the same text).
    pub fn same_as(&self, other: &Key) -> (b: bool)
        ensures
            b == (self@ == other@),
    {
        match (self, other) {
            (Key::Character(a), Key::Character(b)) => a.eq(b),
            (Key::Space, Key::Space) => true,
            (Key::Enter, Key::Enter) => true,
            (Key::Escape, Key::Escape) => true,
            (Key::Backspace, Key::Backspace) => true,
            (Key::Tab, Key::Tab) => true,
            (Key::Delete, Key::Delete) => true,
            (Key::F(a), Key::F(b)) => *a == *b,
            (Key::Left, Key::Left) => true,
            (Key::Right, Key::Right) => true,
            (Key::Up, Key::Up) => true,
            (Key::Down, Key::Down) => true,
            _ => false,
        }
    }

    /// A copy of the key.
    pub fn duplicate(&self) -> (k: Key)
        ensures
            k@ == self@,
    {
        match self {
            Key::Character(s) => Key::Character(s.clone()),
            Key::Space => Key::Space,
            Key::Enter => Key::Enter,
            Key::Escape => Key::Escape,
            Key::Backspace => Key::Backspace,
            Key::Tab => Key::Tab,
            Key::Delete => Key::Delete,
            Key::F(n) => Key::F(*n),
            Key::Left => Key::Left,
            Key::Right => Key::Right,
            Key::Up => Key::Up,
            Key::Down => Key::Down,
        }
    }
}

impl KeyPress {
    /// Whether two presses are the same key with the same modifiers.
    pub fn same_as(&self, other: &KeyPress) -> (b: bool)
        ensures
            b == (self@ == other@),
    {
        self.key.same_as(&other.key) && self.mods.0 == other.mods.0
    }

    /// A copy of the press.
    pub fn duplicate(&self) -> (k: KeyPress)
        ensures
            k@ == self@,
    {
        KeyPress { key: self.key.duplicate(), mods: self.mods }
    }
}

/// A physical key, as the editor sees it.
#[derive(Debug, Clone, PartialEq, Eq, Hash)]
pub enum Key {
    Character(String),
    Space,
    Enter,
    Escape,
    Backspace,
    Tab,
    Delete,
    /// A function key; supported up to F12.
    F(u8),
    Left,
    Right,
    Up,
    Down,
}

/// A set of modifier keys held down, one bit per modifier.
#[derive(Copy, Debug, Clone, PartialEq, Eq, Hash)]
pub struct Mods(u8);

impl View for Mods {
    type V = u8;

    closed spec fn view(&self) -> u8 {
        self.0
    }
}

/// The value of a modifier set after adding `key` to it: unchanged when it
/// already shares a bit with `key`, else the union of both.
pub open spec fn mods_with(bits: u8, key: u8) -> u8 {
    if bits & key != 0 {
        bits
    } else {
        bits | key
    }
}

impl Mods {
    pub const SHIFT: u8 = 1 << 0;

    pub const CTRL: u8 = 1 << 1;

    pub const ALT: u8 = 1 << 2;

    pub const SUPER: u8 = 1 << 3;

    /// The set with no modifier.
    pub fn empty() -> (m: Self)
        ensures
            m@ == 0,
    {
        Mods(0)
    }

    /// Adds the modifiers of `key`, unless one of them is already held.
    pub fn with(&mut self, key: u8)
        ensures
            final(self)@ == mods_with(old(self)@, key),
    {
        // mods are only assigned if not in already
        if !self.contains(key) {
            let bits = self.0;
            assert(bits & key == 0 ==> bits + key == bits | key && bits + key < 256) by (bit_vector);
            self.0 = bits + key;
        }
    }

    /// Whether any modifier of `mask` is held.
    pub fn contains(&self, mask: u8) -> (b: bool)
        ensures
            b == (self@ & mask != 0),
    {
        self.0 & mask != 0
    }
}


/// After adding a non-empty set of modifiers, one of them is held.
pub proof fn lemma_with_then_contains(bits: u8, key: u8)
    requires
        key != 0,
    ensures
        mods_with(bits, key) & key != 0,
{
    assert(bits & key == 0 && key != 0 ==> (bits | key) & key != 0) by (bit_vector);
}

/// Adding the same modifiers twice is adding them once.
pub proof fn lemma_with_idempotent(bits: u8, key: u8)
    ensures
        mods_with(mods_with(bits, key), key) == mods_with(bits, key),
{
    assert(bits & key == 0 && key != 0 ==> (bits | key) & key != 0) by (bit_vector);
    assert(key == 0 ==> bits | key == bits) by (bit_vector);
}

/// Adding modifiers never releases one that was held.
pub proof fn lemma_with_keeps_held(bits: u8, key: u8, held: u8)
    requires
        bits & held != 0,
    ensures
        mods_with(bits, key) & held != 0,
{
    assert(bits & held != 0 ==> (bits | key) & held != 0) by (bit_vector);
}

} // verus!
