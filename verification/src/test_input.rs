//! Scripted mouse input for exercising views: each scripted step stands
//! for the backend events a real mouse would send.
use vstd::prelude::*;
use crate::geom::{fits_i32, Pos2, Vec2};
use crate::keys::{Event, Modifiers, MouseButton};

verus! {

/// A scripted step of mouse input.
#[derive(Copy, Clone, Debug, PartialEq, Eq, Structural)]
pub enum TestInput {
    /// Move to `pos` and press the primary button there.
    Held { pos: Pos2 },
    /// Move to `pos`, press the primary button and release it.
    Click { pos: Pos2 },
    /// Move to `pos`.
    MouseMove { pos: Pos2 },
    /// Move to `start`, press the primary button and move by `delta`.
    Drag { start: Pos2, delta: Vec2 },
}

/// The primary button going down or up at `pos`, with no modifier held.
pub open spec fn primary(pos: Pos2, down: bool) -> Event {
    Event::MouseButtonChanged { pos, button: MouseButton::Primary, down, modifiers: Modifiers(0) }
}

/// The backend events a scripted step stands for, in order.
pub open spec fn test_events(input: TestInput) -> Seq<Event> {
    match input {
        TestInput::Held { pos } => seq![Event::MouseMove { pos }, primary(pos, true)],
        TestInput::Click { pos } => seq![Event::MouseMove { pos }, primary(pos, true), primary(pos, false)],
        TestInput::MouseMove { pos } => seq![Event::MouseMove { pos }],
        TestInput::Drag { start, delta } => seq![
            Event::MouseMove { pos: start },
            primary(start, true),
            Event::MouseMove { pos: Pos2 { x: (start.x + delta.x) as i32, y: (start.y + delta.y) as i32 } },
        ],
    }
}

impl TestInput {
    /// A drag ends where `start + delta` fits in `i32`.
    pub open spec fn fits(self) -> bool {
        match self {
            TestInput::Drag { start, delta } => fits_i32(start.x + delta.x) && fits_i32(start.y + delta.y),
            _ => true,
        }
    }

    /// The backend events this step stands for, in order.
    pub fn events(&self) -> (r: Vec<Event>)
        requires
            self.fits(),
        ensures
            r@ == test_events(*self),
    {
        let press = |pos: Pos2, down: bool| -> (e: Event)
            ensures
                e == primary(pos, down),
            { Event::MouseButtonChanged { pos, button: MouseButton::Primary, down, modifiers: Modifiers::none() } };
        let r = match *self {
            TestInput::Held { pos } => vec![Event::MouseMove { pos }, press(pos, true)],
            TestInput::Click { pos } => vec![Event::MouseMove { pos }, press(pos, true), press(pos, false)],
            TestInput::MouseMove { pos } => vec![Event::MouseMove { pos }],
            TestInput::Drag { start, delta } => vec![
                Event::MouseMove { pos: start },
                press(start, true),
                Event::MouseMove { pos: Pos2::new(start.x + delta.x, start.y + delta.y) },
            ],
        };
        assert(r@ =~= test_events(*self));
        r
    }
}

} // verus!
