//! How a list places its children along and across its axis, and how a
//! scrollable list answers keys and the mouse.
use vstd::prelude::*;
use crate::geom::{fits_i32, Pos2, Rect};
use crate::input::{Handled, ViewEvent};
use crate::keys::Key;
use crate::layout::Axis;

verus! {

/// How the children of a list share the space along its axis.
#[derive(Copy, Clone, Debug, PartialEq, Eq, Structural)]
pub enum Justify {
    Start,
    End,
    Center,
    SpaceBetween,
    SpaceAround,
    SpaceEvenly,
}

impl Default for Justify {
    fn default() -> (j: Justify)
        ensures
            j == Justify::Start,
    {
        Justify::Start
    }
}

/// How the children of a list are placed across its axis.
#[derive(Copy, Clone, Debug, PartialEq, Eq, Structural)]
pub enum CrossAlign {
    Start,
    End,
    Center,
    Stretch,
    Fill,
}

impl Default for CrossAlign {
    fn default() -> (c: CrossAlign)
        ensures
            c == CrossAlign::Start,
    {
        CrossAlign::Start
    }
}

impl CrossAlign {
    pub fn is_stretch(&self) -> (r: bool)
        ensures
            r == (*self == CrossAlign::Stretch),
    {
        match self {
            CrossAlign::Stretch => true,
            _ => false,
        }
    }

    pub fn is_fill(&self) -> (r: bool)
        ensures
            r == (*self == CrossAlign::Fill),
    {
        match self {
            CrossAlign::Fill => true,
            _ => false,
        }
    }
}

/// The element of `(x, y)` along `axis`.
pub open spec fn along(axis: Axis, x: int, y: int) -> int {
    match axis {
        Axis::Horizontal => x,
        Axis::Vertical => y,
    }
}

/// The first child shown after scrolling from `pos` by `delta` in a list
/// of `len` children: the sum kept within `usize`, then within the last
/// child.
pub open spec fn scrolled_to(pos: usize, delta: int, len: usize) -> usize {
    let last = if len > 0 {
        len - 1
    } else {
        0
    };
    let v = pos + delta;
    let sat = if v < 0 {
        0
    } else if v > usize::MAX {
        usize::MAX as int
    } else {
        v
    };
    (if sat > last {
        last
    } else {
        sat
    }) as usize
}

/// How far a key scrolls a list whose rectangle is `rect`, if the key
/// scrolls it at all.
pub open spec fn key_scroll(key: Key, axis: Axis, rect: Rect) -> Option<int> {
    let main = along(axis, rect.max.x - rect.min.x, rect.max.y - rect.min.y);
    match key {
        Key::Up => Some(-1),
        Key::Down => Some(1),
        Key::PageUp => Some(-main),
        Key::PageDown => Some(main),
        Key::Home => Some(i32::MIN as int),
        Key::End => Some(i32::MAX as int),
        _ => None,
    }
}

/// The arithmetic of `list_event` stays within `i32`: the rectangle's size,
/// its negation for a page up, and the negation of a drag's step.
pub open spec fn list_event_fits(axis: Axis, rect: Rect, event: ViewEvent) -> bool {
    let w = rect.max.x - rect.min.x;
    let h = rect.max.y - rect.min.y;
    &&& fits_i32(w) && fits_i32(h)
    &&& (event matches ViewEvent::KeyInput { key: Key::PageUp, .. }) ==> fits_i32(-along(axis, w, h))
    &&& event matches ViewEvent::MouseDrag { delta, .. } ==> fits_i32(-along(axis, delta.x as int, delta.y as int))
}

/// What a scrollable list does with `event`: the answer, the first child
/// shown and whether the scroll knob is held. Keys and the wheel scroll;
/// pressing on the knob at `knob_pos` takes hold of it; moving the mouse off
/// the knob lets go of it; dragging the held knob moves to the child the
/// drag points at (`knob_drag_pos`, where the drag's point falls along the
/// track, kept within the last child); any other drag inside scrolls back
/// by the drag's step.
pub open spec fn list_event_spec(
    scrollable: bool,
    pos: usize,
    len: usize,
    knob_pos: Pos2,
    knob_held: bool,
    knob_drag_pos: usize,
    axis: Axis,
    rect: Rect,
    event: ViewEvent,
) -> (Handled, usize, bool) {
    if !scrollable {
        (Handled::Bubble, pos, knob_held)
    } else {
        match event {
            ViewEvent::KeyInput { key, .. } => match key_scroll(key, axis, rect) {
                Some(d) => (Handled::Sink, scrolled_to(pos, d, len), knob_held),
                None => (Handled::Bubble, pos, knob_held),
            },
            ViewEvent::MouseMove { pos: p, .. } => (Handled::Sink, pos, knob_held && knob_pos == p),
            ViewEvent::MouseHeld { pos: p, inside, .. } => if inside {
                (Handled::Sink, pos, knob_pos == p)
            } else {
                (Handled::Bubble, pos, knob_held)
            },
            ViewEvent::MouseDrag { delta, inside, .. } => if !inside {
                (Handled::Bubble, pos, knob_held)
            } else if knob_held {
                (Handled::Sink, scrolled_to(knob_drag_pos, 0, len), knob_held)
            } else {
                (Handled::Sink, scrolled_to(pos, -along(axis, delta.x as int, delta.y as int), len), knob_held)
            },
            ViewEvent::MouseScroll { delta, .. } => (
                Handled::Sink,
                scrolled_to(pos, along(axis, delta.x as int, delta.y as int), len),
                knob_held,
            ),
            _ => (Handled::Bubble, pos, knob_held),
        }
    }
}

/// The first child shown after scrolling from `pos` by `delta`.
fn scroll_list(pos: usize, delta: i32, len: usize) -> (r: usize)
    ensures
        r == scrolled_to(pos, delta as int, len),
{
    let last: usize = if len > 0 {
        len - 1
    } else {
        0
    };
    let sat: usize = if delta >= 0 {
        let d: usize = delta as usize;
        if pos > usize::MAX - d {
            usize::MAX
        } else {
            pos + d
        }
    } else {
        let d: usize = (0i64 - (delta as i64)) as usize;
        if pos < d {
            0
        } else {
            pos - d
        }
    };
    if sat > last {
        last
    } else {
        sat
    }
}

/// What a scrollable list does with `event`: the answer, the first child
/// shown and whether the scroll knob is held. `pos` is the first child
/// shown, `len` how many children there are, `knob_pos` where the knob is
/// drawn, and `knob_drag_pos` the child a drag of the held knob points at
/// (computed along the track, in fractions of a cell).
pub fn list_event(
    scrollable: bool,
    pos: usize,
    len: usize,
    knob_pos: Pos2,
    knob_held: bool,
    knob_drag_pos: usize,
    axis: Axis,
    rect: Rect,
    event: ViewEvent,
) -> (r: (Handled, usize, bool))
    requires
        scrollable ==> list_event_fits(axis, rect, event),
    ensures
        r == list_event_spec(scrollable, pos, len, knob_pos, knob_held, knob_drag_pos, axis, rect, event),
{
    if !scrollable {
        return (Handled::Bubble, pos, knob_held);
    }
    let w: i32 = rect.max.x - rect.min.x;
    let h: i32 = rect.max.y - rect.min.y;
    match event {
        ViewEvent::KeyInput { key, .. } => {
            let delta: i32 = match key {
                Key::Up => -1,
                Key::Down => 1,
                Key::PageUp => -axis.main((w, h)),
                Key::PageDown => axis.main((w, h)),
                Key::Home => i32::MIN,
                Key::End => i32::MAX,
                _ => {
                    return (Handled::Bubble, pos, knob_held);
                },
            };
            (Handled::Sink, scroll_list(pos, delta, len), knob_held)
        },
        ViewEvent::MouseMove { pos: p, .. } => {
            let held = if knob_pos != p {
                false
            } else {
                knob_held
            };
            (Handled::Sink, pos, held)
        },
        ViewEvent::MouseHeld { pos: p, inside, .. } => {
            if inside {
                (Handled::Sink, pos, knob_pos == p)
            } else {
                (Handled::Bubble, pos, knob_held)
            }
        },
        ViewEvent::MouseDrag { delta, inside, .. } => {
            if !inside {
                (Handled::Bubble, pos, knob_held)
            } else if knob_held {
                (Handled::Sink, scroll_list(knob_drag_pos, 0, len), knob_held)
            } else {
                (Handled::Sink, scroll_list(pos, -axis.main((delta.x, delta.y)), len), knob_held)
            }
        },
        ViewEvent::MouseScroll { delta, .. } => {
            (Handled::Sink, scroll_list(pos, axis.main((delta.x, delta.y)), len), knob_held)
        },
        _ => (Handled::Bubble, pos, knob_held),
    }
}

} // verus!
