//! Keys, modifier keys, key bindings and mouse buttons as the backend reports them.
use vstd::prelude::*;
use crate::geom::{Pos2, Vec2};

verus! {

/// A key on the keyboard.
#[derive(Copy, Clone, Debug, PartialEq, Eq, Structural)]
pub enum Key {
    Char(char),
    Backspace,
    Delete,
    Enter,
    Escape,
    Tab,
    Insert,
    Left,
    Right,
    Up,
    Down,
    Home,
    End,
    PageUp,
    PageDown,
}

/// The modifier keys held down, as bit flags.
#[derive(Copy, Clone, Debug, PartialEq, Eq, Structural)]
pub struct Modifiers(pub u8);

pub open spec fn shift_bit() -> u8 {
    1
}

pub open spec fn ctrl_bit() -> u8 {
    2
}

pub open spec fn alt_bit() -> u8 {
    4
}

impl Modifiers {
    /// No modifier held.
    pub fn none() -> (m: Modifiers)
        ensures
            m.0 == 0,
    {
        Modifiers(0)
    }

    /// Only shift held.
    pub fn shift() -> (m: Modifiers)
        ensures
            m.0 == shift_bit(),
    {
        Modifiers(1)
    }

    /// Only control held.
    pub fn ctrl() -> (m: Modifiers)
        ensures
            m.0 == ctrl_bit(),
    {
        Modifiers(2)
    }

    /// Only alt held.
    pub fn alt() -> (m: Modifiers)
        ensures
            m.0 == alt_bit(),
    {
        Modifiers(4)
    }

    pub open spec fn has(self, bit: u8) -> bool {
        self.0 & bit != 0
    }

    pub fn is_none(&self) -> (r: bool)
        ensures
            r == (self.0 == 0),
    {
        self.0 == 0
    }

    pub fn is_shift(&self) -> (r: bool)
        ensures
            r == self.has(shift_bit()),
    {
        self.0 & 1 != 0
    }

    pub fn is_ctrl(&self) -> (r: bool)
        ensures
            r == self.has(ctrl_bit()),
    {
        self.0 & 2 != 0
    }

    pub fn is_alt(&self) -> (r: bool)
        ensures
            r == self.has(alt_bit()),
    {
        self.0 & 4 != 0
    }

    pub fn is_shift_only(&self) -> (r: bool)
        ensures
            r == (self.0 == shift_bit()),
    {
        self.0 == 1
    }

    pub fn is_ctrl_only(&self) -> (r: bool)
        ensures
            r == (self.0 == ctrl_bit()),
    {
        self.0 == 2
    }

    pub fn is_alt_only(&self) -> (r: bool)
        ensures
            r == (self.0 == alt_bit()),
    {
        self.0 == 4
    }
}

/// A key together with the modifiers held while it was pressed.
#[derive(Copy, Clone, Debug, PartialEq, Eq, Structural)]
pub struct Keybind {
    pub key: Key,
    pub modifiers: Modifiers,
}

impl Keybind {
    pub fn new(key: Key, modifiers: Modifiers) -> (k: Keybind)
        ensures
            k == (Keybind { key, modifiers }),
    {
        Keybind { key, modifiers }
    }

    /// A key pressed without modifiers.
    pub fn from_key(key: Key) -> (k: Keybind)
        ensures
            k == (Keybind { key, modifiers: Modifiers(0) }),
    {
        Keybind { key, modifiers: Modifiers(0) }
    }
}

/// A mouse button.
#[derive(Copy, Clone, Debug, PartialEq, Eq, Structural)]
pub enum MouseButton {
    Primary,
    Secondary,
    Middle,
}

/// An event reported by the terminal backend.
#[derive(Copy, Clone, Debug, PartialEq, Eq, Structural)]
pub enum Event {
    KeyPressed { key: Key, modifiers: Modifiers },
    MouseMove { pos: Pos2 },
    MouseButtonChanged { pos: Pos2, button: MouseButton, down: bool, modifiers: Modifiers },
    MouseDrag { pos: Pos2, button: MouseButton, modifiers: Modifiers },
    MouseScroll { pos: Pos2, delta: Vec2, modifiers: Modifiers },
    Resize(Vec2),
    Quit,
}

impl Event {
    pub open spec fn spec_modifiers(self) -> Option<Modifiers> {
        match self {
            Event::KeyPressed { modifiers, .. } => Some(modifiers),
            Event::MouseButtonChanged { modifiers, .. } => Some(modifiers),
            Event::MouseDrag { modifiers, .. } => Some(modifiers),
            Event::MouseScroll { modifiers, .. } => Some(modifiers),
            _ => None,
        }
    }

    /// The modifiers held during the event, for the events that carry them.
    pub fn modifiers(&self) -> (r: Option<Modifiers>)
        ensures
            r == self.spec_modifiers(),
    {
        match self {
            Event::KeyPressed { modifiers, .. } => Some(*modifiers),
            Event::MouseButtonChanged { modifiers, .. } => Some(*modifiers),
            Event::MouseDrag { modifiers, .. } => Some(*modifiers),
            Event::MouseScroll { modifiers, .. } => Some(*modifiers),
            _ => None,
        }
    }
}

} // verus!
