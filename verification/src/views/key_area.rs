//! A view that catches the key presses sent to it while it has the focus.
use vstd::prelude::*;
use crate::input::{Handled, ViewEvent};
use crate::interest::{focus_input_bit, Interest};
use crate::keys::{Key, Keybind, Modifiers};

verus! {

/// Catches key presses until the next frame reads them.
#[derive(Copy, Clone, Debug, PartialEq, Eq, Structural)]
pub struct KeyArea {
    pub key: Option<Key>,
    pub modifiers: Option<Modifiers>,
}

/// The key pressed during the last frame, if any.
#[derive(Copy, Clone, Debug, PartialEq, Eq, Structural)]
pub struct KeyAreaResponse {
    pub key: Option<Key>,
    pub modifiers: Option<Modifiers>,
}

/// A key area that caught nothing yet.
pub fn key_area() -> (k: KeyArea)
    ensures
        k == (KeyArea { key: None, modifiers: None }),
{
    KeyArea { key: None, modifiers: None }
}

impl KeyArea {
    /// Hand out what was caught and start catching anew.
    pub fn update(&mut self) -> (r: KeyAreaResponse)
        ensures
            r == (KeyAreaResponse { key: old(self).key, modifiers: old(self).modifiers }),
            *final(self) == (KeyArea { key: None, modifiers: None }),
    {
        let r = KeyAreaResponse { key: self.key, modifiers: self.modifiers };
        self.key = None;
        self.modifiers = None;
        r
    }

    /// A key area wants key input while focused.
    pub fn interests(&self) -> (r: Interest)
        ensures
            r.0 == focus_input_bit(),
    {
        Interest(16)
    }

    /// Catch a key press (and sink it); let every other event bubble.
    pub fn event(&mut self, event: ViewEvent) -> (r: Handled)
        ensures
            match event {
                ViewEvent::KeyInput { key, modifiers } => {
                    &&& *final(self) == (KeyArea { key: Some(key), modifiers: Some(modifiers) })
                    &&& r == Handled::Sink
                },
                _ => *final(self) == *old(self) && r == Handled::Bubble,
            },
    {
        match event {
            ViewEvent::KeyInput { key, modifiers } => {
                self.key = Some(key);
                self.modifiers = Some(modifiers);
                Handled::Sink
            },
            _ => Handled::Bubble,
        }
    }
}

impl KeyAreaResponse {
    /// The key and its modifiers, when both were caught.
    pub fn key_binding(&self) -> (r: Option<Keybind>)
        ensures
            r == (match (self.key, self.modifiers) {
                (Some(key), Some(modifiers)) => Some(Keybind { key, modifiers }),
                _ => None,
            }),
    {
        match (self.key, self.modifiers) {
            (Some(key), Some(modifiers)) => Some(Keybind::new(key, modifiers)),
            _ => None,
        }
    }

    /// Was exactly this key binding pressed? Missing modifiers count as none.
    pub fn key_pressed(&self, key: Keybind) -> (r: bool)
        ensures
            r == (match self.key {
                Some(got) => key == Keybind {
                    key: got,
                    modifiers: match self.modifiers {
                        Some(m) => m,
                        None => Modifiers(0),
                    },
                },
                None => false,
            }),
    {
        match self.key {
            Some(got) => {
                let modifiers = match self.modifiers {
                    Some(m) => m,
                    None => Modifiers(0),
                };
                let got = Keybind::new(got, modifiers);
                got == key
            },
            None => false,
        }
    }

    pub fn is_shift(&self) -> (r: bool)
        ensures
            r == (match self.modifiers {
                Some(m) => m.has(1),
                None => false,
            }),
    {
        match self.modifiers {
            Some(m) => m.is_shift(),
            None => false,
        }
    }

    pub fn is_ctrl(&self) -> (r: bool)
        ensures
            r == (match self.modifiers {
                Some(m) => m.has(2),
                None => false,
            }),
    {
        match self.modifiers {
            Some(m) => m.is_ctrl(),
            None => false,
        }
    }

    pub fn is_alt(&self) -> (r: bool)
        ensures
            r == (match self.modifiers {
                Some(m) => m.has(4),
                None => false,
            }),
    {
        match self.modifiers {
            Some(m) => m.is_alt(),
            None => false,
        }
    }

    pub fn is_shift_only(&self) -> (r: bool)
        ensures
            r == (match self.modifiers {
                Some(m) => m.0 == 1,
                None => false,
            }),
    {
        match self.modifiers {
            Some(m) => m.is_shift_only(),
            None => false,
        }
    }

    pub fn is_ctrl_only(&self) -> (r: bool)
        ensures
            r == (match self.modifiers {
                Some(m) => m.0 == 2,
                None => false,
            }),
    {
        match self.modifiers {
            Some(m) => m.is_ctrl_only(),
            None => false,
        }
    }

    pub fn is_alt_only(&self) -> (r: bool)
        ensures
            r == (match self.modifiers {
                Some(m) => m.0 == 4,
                None => false,
            }),
    {
        match self.modifiers {
            Some(m) => m.is_alt_only(),
            None => false,
        }
    }
}

} // verus!
