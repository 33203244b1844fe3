//! A clickable button: its label and margin, and the state it goes through
//! as the mouse enters, holds, clicks and leaves it.
use vstd::prelude::*;
use crate::geom::Margin;
use crate::input::{Handled, ViewEvent};
use crate::interest::{mouse_inside_bit, Interest};
use crate::views::styles::State;

verus! {

/// A button: its label, the margin around the label, and its state.
#[derive(Debug)]
pub struct Button {
    pub label: String,
    pub margin: Margin,
    pub state: State,
}

/// What a button reports after a frame.
#[derive(Copy, Clone, Debug, PartialEq, Eq, Structural)]
pub struct Response {
    pub state: State,
}

impl Response {
    pub fn clicked(&self) -> (r: bool)
        ensures
            r == (self.state == State::Clicked),
    {
        match self.state {
            State::Clicked => true,
            _ => false,
        }
    }

    pub fn hovered(&self) -> (r: bool)
        ensures
            r == (self.state == State::Hovered),
    {
        match self.state {
            State::Hovered => true,
            _ => false,
        }
    }

    pub fn held(&self) -> (r: bool)
        ensures
            r == (self.state == State::Held),
    {
        match self.state {
            State::Held => true,
            _ => false,
        }
    }

    pub fn disabled(&self) -> (r: bool)
        ensures
            r == (self.state == State::Disabled),
    {
        match self.state {
            State::Disabled => true,
            _ => false,
        }
    }
}

/// A button showing `label`.
pub fn button(label: &str) -> (b: Button)
    ensures
        b.label@ == label@,
        b.margin == (Margin { left: 0, top: 0, right: 0, bottom: 0 }),
        b.state == State::Idle,
{
    Button::new(label)
}

/// The state a button goes to on `event`, or `None` when the event does
/// not concern it.
pub open spec fn button_step(event: ViewEvent) -> Option<State> {
    match event {
        ViewEvent::MouseClicked { inside: true, .. } => Some(State::Clicked),
        ViewEvent::MouseHeld { inside: true, .. } => Some(State::Held),
        ViewEvent::MouseEntered => Some(State::Hovered),
        ViewEvent::MouseLeave => Some(State::Idle),
        _ => None,
    }
}

impl Button {
    /// A button showing `label`, with no margin, idle.
    pub fn new(label: &str) -> (b: Button)
        ensures
            b.label@ == label@,
            b.margin == (Margin { left: 0, top: 0, right: 0, bottom: 0 }),
            b.state == State::Idle,
    {
        Button { label: label.to_owned(), margin: Margin { left: 0, top: 0, right: 0, bottom: 0 }, state: State::Idle }
    }

    /// The same button with `margin` around its label.
    pub fn margin(self, margin: Margin) -> (b: Button)
        ensures
            b.label@ == self.label@,
            b.margin == margin,
            b.state == self.state,
    {
        Button { margin, ..self }
    }

    /// The same button, disabled: it no longer takes events. The flag is
    /// not consulted; the button is disabled either way.
    pub fn disabled(self, disabled: bool) -> (b: Button)
        ensures
            b.label@ == self.label@,
            b.margin == self.margin,
            b.state == State::Disabled,
    {
        Button { state: State::Disabled, ..self }
    }

    /// The view made from its arguments.
    pub fn create(builder: Button) -> (b: Button)
        ensures
            b.label@ == builder.label@,
            b.margin == builder.margin,
            b.state == builder.state,
    {
        builder
    }

    /// Take the label and margin of this frame's arguments and report the
    /// state; a click is reported once, then the button is hovered.
    pub fn update(&mut self, builder: Button) -> (r: Response)
        ensures
            r.state == old(self).state,
            final(self).label@ == builder.label@,
            final(self).margin == builder.margin,
            final(self).state == (if old(self).state == State::Clicked {
                State::Hovered
            } else {
                old(self).state
            }),
    {
        self.label = builder.label;
        self.margin = builder.margin;
        let state = self.state;
        if let State::Clicked = self.state {
            self.state = State::Hovered;
        }
        Response { state }
    }

    /// A button wants to know when the mouse is over it.
    pub fn interests(&self) -> (r: Interest)
        ensures
            r.0 == mouse_inside_bit(),
    {
        Interest::mouse_inside()
    }

    /// A disabled button lets every event bubble. Otherwise a click or a
    /// hold inside, the mouse entering or leaving set the state and are
    /// sunk; anything else bubbles.
    pub fn event(&mut self, event: ViewEvent) -> (r: Handled)
        ensures
            final(self).label@ == old(self).label@,
            final(self).margin == old(self).margin,
            old(self).state == State::Disabled ==> r == Handled::Bubble && final(self).state == old(self).state,
            old(self).state != State::Disabled ==> match button_step(event) {
                Some(s) => r == Handled::Sink && final(self).state == s,
                None => r == Handled::Bubble && final(self).state == old(self).state,
            },
    {
        if let State::Disabled = self.state {
            return Handled::Bubble;
        }
        let next = match event {
            ViewEvent::MouseClicked { inside: true, .. } => State::Clicked,
            ViewEvent::MouseHeld { inside: true, .. } => State::Held,
            ViewEvent::MouseEntered => State::Hovered,
            ViewEvent::MouseLeave => State::Idle,
            _ => {
                return Handled::Bubble;
            },
        };
        self.state = next;
        Handled::Sink
    }
}

} // verus!
