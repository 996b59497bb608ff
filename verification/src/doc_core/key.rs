use vstd::prelude::*;

verus! {

/// A key pressed with some modifiers held.
#[derive(Debug, Clone)]
pub struct KeyPress {
    key: Key,
    mods: Mods,
}

#[derive(Debug, Clone)]
pub enum Key {
    Char(String),
}

/// Held modifiers, one bit each.
#[derive(Debug, Clone, Copy)]
pub struct Mods(u8);

impl View for Mods {
    type V = u8;

    closed spec fn view(&self) -> u8 {
        self.0
    }
}

impl Mods {
    const SHIFT: u8 = 1;

    const ALT: u8 = 1 << 1;

    const CTRL: u8 = 1 << 2;

    const SUPER: u8 = 1 << 3;

    /// Whether any modifier of `key` is held.
    pub fn contains(self, key: u8) -> (b: bool)
        ensures
            b == (self@ & key != 0),
    {
        self.0 & key != 0
    }

    /// The set with the modifiers of `key` added, unless one of them is
    /// already held (then the set is returned unchanged).
    pub fn with_key(self, key: u8) -> (m: Self)
        ensures
            m@ == (if self@ & key != 0 {
                self@
            } else {
                self@ | key
            }),
    {
        if self.contains(key) {
            return self;
        }
        let bits = self.0;
        assert(bits & key == 0 ==> bits + key == bits | key && bits + key < 256) by (bit_vector);
        Self(bits + key)
    }
}

} // verus!
