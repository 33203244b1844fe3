//! A switch that flips a boolean when clicked or dragged towards its other side.
use vstd::prelude::*;
use crate::geom::{Pos2, Vec2};
use crate::input::{Handled, ViewEvent};
use crate::keys::{Modifiers, MouseButton};
use crate::interest::{mouse_inside_bit, mouse_move_bit, mouse_outside_bit, Interest};

verus! {

/// Whether the switch changed its value during the last frame.
#[derive(Copy, Clone, Debug, PartialEq, Eq, Structural)]
pub struct ToggleResponse {
    pub changed: bool,
}

impl ToggleResponse {
    pub fn changed(&self) -> (r: bool)
        ensures
            r == self.changed,
    {
        self.changed
    }
}

/// The arguments of a switch: the value it shows and flips.
#[derive(Copy, Clone, Debug, PartialEq, Eq, Structural)]
pub struct ToggleSwitch {
    pub value: bool,
}

impl ToggleSwitch {
    pub fn new(value: bool) -> (r: ToggleSwitch)
        ensures
            r == (ToggleSwitch { value }),
    {
        ToggleSwitch { value }
    }
}

/// The state of a switch between frames.
#[derive(Copy, Clone, Debug, PartialEq, Eq, Structural)]
pub struct ToggleSwitchView {
    pub value: bool,
    pub changed: bool,
}

/// Does `event` flip a switch showing `value`? A click on it does, and so
/// does a drag over it towards the other side.
pub open spec fn flips(value: bool, event: ViewEvent) -> bool {
    match event {
        ViewEvent::MouseClicked { inside, .. } => inside,
        ViewEvent::MouseDrag { delta, inside, .. } => inside && ((value && delta.x < 0) || (!value
            && delta.x > 0)),
        _ => false,
    }
}

impl ToggleSwitchView {
    /// A switch showing the caller's value, unchanged.
    pub fn create(args: ToggleSwitch) -> (r: ToggleSwitchView)
        ensures
            r == (ToggleSwitchView { value: args.value, changed: false }),
    {
        ToggleSwitchView { value: args.value, changed: false }
    }

    /// Hand a flip to the caller's value, or else follow the caller's value.
    pub fn update(&mut self, value: &mut bool) -> (r: ToggleResponse)
        ensures
            r == (ToggleResponse { changed: old(self).changed }),
            old(self).changed ==> *final(value) == old(self).value && *final(self) == (ToggleSwitchView {
                value: old(self).value,
                changed: false,
            }),
            !old(self).changed ==> *final(value) == *old(value) && *final(self) == (ToggleSwitchView {
                value: *old(value),
                changed: false,
            }),
    {
        let changed = self.changed;
        if changed {
            self.changed = false;
            *value = self.value;
        } else if self.value != *value {
            self.value = *value;
        }
        ToggleResponse { changed }
    }

    /// A switch wants every mouse event.
    pub fn interests(&self) -> (r: Interest)
        ensures
            r.0 == mouse_inside_bit() | mouse_outside_bit() | mouse_move_bit(),
    {
        assert(1u8 | 2u8 | 4u8 == 7u8) by (bit_vector);
        Interest(7)
    }

    /// Flip on a click or a drag towards the other side, and sink it.
    pub fn event(&mut self, event: ViewEvent) -> (r: Handled)
        ensures
            flips(old(self).value, event) ==> *final(self) == (ToggleSwitchView {
                value: !old(self).value,
                changed: true,
            }) && r == Handled::Sink,
            !flips(old(self).value, event) ==> *final(self) == *old(self) && r == Handled::Bubble,
    {
        let flip = match event {
            ViewEvent::MouseClicked { inside, .. } => inside,
            ViewEvent::MouseDrag { delta, inside, .. } => inside && ((self.value && delta.x < 0) || (
            !self.value && delta.x > 0)),
            _ => false,
        };
        if flip {
            self.value = !self.value;
            self.changed = true;
            Handled::Sink
        } else {
            Handled::Bubble
        }
    }
}

/// A drag inside the switch towards the side it is not on flips it, for
/// either value: on, dragged left (negative `x`), it flips off; off, dragged
/// right, it flips on. A drag towards the side it is on, a drag that does
/// not move along `x`, and any drag outside it flip nothing.
pub proof fn lemma_drag_towards_other_side(
    value: bool,
    start: Pos2,
    current: Pos2,
    delta: Vec2,
    inside: bool,
    modifiers: Modifiers,
    button: MouseButton,
)
    ensures
        flips(value, ViewEvent::MouseDrag { start, current, delta, inside, modifiers, button }) == (inside && (
        if value {
            delta.x < 0
        } else {
            delta.x > 0
        })),
{
}

/// Flipping is the same for both values once the drag is mirrored: a switch
/// showing `value` flips on a drag by `dx` exactly when one showing
/// `!value` flips on a drag by `-dx`.
pub proof fn lemma_flip_symmetric(
    value: bool,
    start: Pos2,
    current: Pos2,
    delta: Vec2,
    inside: bool,
    modifiers: Modifiers,
    button: MouseButton,
)
    requires
        delta.x > i32::MIN,
    ensures
        flips(value, ViewEvent::MouseDrag { start, current, delta, inside, modifiers, button }) == flips(
            !value,
            ViewEvent::MouseDrag {
                start,
                current,
                delta: Vec2 { x: (-delta.x) as i32, y: delta.y },
                inside,
                modifiers,
                button,
            },
        ),
{
}

/// A click inside the switch flips it whatever it shows; a click outside
/// does not.
pub proof fn lemma_click_flips(value: bool, pos: Pos2, inside: bool, button: MouseButton, modifiers: Modifiers)
    ensures
        flips(value, ViewEvent::MouseClicked { pos, inside, button, modifiers }) == inside,
{
}

} // verus!
