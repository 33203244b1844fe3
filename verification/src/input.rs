//! Events sent to views and how views answer them.
use vstd::prelude::*;
use crate::geom::{Pos2, Vec2};
use crate::keys::{Key, Modifiers, MouseButton};

verus! {

/// An opaque id of a view in the ui tree.
#[derive(Copy, Clone, Debug, PartialEq, Eq, Structural)]
pub struct ViewId(pub u64);

/// A response to an event: a view that consumes it returns `Sink`, otherwise
/// `Bubble` so that other views can process it.
#[derive(Copy, Clone, Debug, PartialEq, Eq, Structural)]
pub enum Handled {
    Sink,
    Bubble,
}

impl Handled {
    pub fn is_sink(&self) -> (r: bool)
        ensures
            r == (*self == Handled::Sink),
    {
        match self {
            Handled::Sink => true,
            Handled::Bubble => false,
        }
    }

    pub fn is_bubble(&self) -> (r: bool)
        ensures
            r == (*self == Handled::Bubble),
    {
        match self {
            Handled::Sink => false,
            Handled::Bubble => true,
        }
    }
}

impl Default for Handled {
    fn default() -> (r: Handled)
        ensures
            r == Handled::Bubble,
    {
        Handled::Bubble
    }
}

/// The state of a mouse button across frames.
#[derive(Copy, Clone, Debug, PartialEq, Eq, Structural)]
pub enum ButtonState {
    JustDown,
    Down,
    JustUp,
    Up,
}

impl ButtonState {
    pub open spec fn spec_is_down(self) -> bool {
        self == ButtonState::JustDown || self == ButtonState::Down
    }

    /// The state one frame later: a fresh press or release becomes settled.
    pub open spec fn settled(self) -> ButtonState {
        match self {
            ButtonState::JustDown => ButtonState::Down,
            ButtonState::JustUp => ButtonState::Up,
            _ => self,
        }
    }

    pub fn is_down(&self) -> (r: bool)
        ensures
            r == self.spec_is_down(),
    {
        match self {
            ButtonState::JustDown | ButtonState::Down => true,
            _ => false,
        }
    }

    pub fn settle(&mut self)
        ensures
            *final(self) == old(self).settled(),
    {
        *self = match self {
            ButtonState::JustDown => ButtonState::Down,
            ButtonState::JustUp => ButtonState::Up,
            _ => return,
        }
    }
}

/// Settling keeps whether a button is down, and settling twice is settling once.
pub proof fn lemma_settle(b: ButtonState)
    ensures
        b.settled().spec_is_down() == b.spec_is_down(),
        b.settled().settled() == b.settled(),
{
}

/// Events a view can receive.
#[derive(Copy, Clone, Debug, PartialEq, Eq, Structural)]
pub enum ViewEvent {
    KeyInput { key: Key, modifiers: Modifiers },
    MouseMove { pos: Pos2, modifiers: Modifiers },
    MouseHeld { pos: Pos2, inside: bool, button: MouseButton, modifiers: Modifiers },
    MouseClicked { pos: Pos2, inside: bool, button: MouseButton, modifiers: Modifiers },
    MouseDrag {
        start: Pos2,
        current: Pos2,
        delta: Vec2,
        inside: bool,
        modifiers: Modifiers,
        button: MouseButton,
    },
    MouseScroll { delta: Vec2, modifiers: Modifiers },
    MouseEntered,
    MouseLeave,
    FocusGained,
    FocusLost,
    SelectionAdded(ViewId),
    SelectionRemoved(ViewId),
}

} // verus!
