//! A view that records what the mouse did over it during a frame.
use vstd::prelude::*;
use crate::geom::{fits_i32, Pos2, Vec2};
use crate::input::{Handled, ViewEvent};
use crate::keys::{Modifiers, MouseButton};
use crate::interest::{mouse_inside_bit, mouse_move_bit, mouse_outside_bit, Interest};

verus! {

/// A drag in progress: where it started, where the mouse is, and the offset
/// from the mouse to the view's top-left corner when the drag began.
#[derive(Copy, Clone, Debug, PartialEq, Eq, Structural)]
pub struct DragState {
    pub start: Pos2,
    pub pos: Pos2,
    pub offset: Vec2,
}

/// A drag as a response reports it.
#[derive(Copy, Clone, Debug, PartialEq, Eq, Structural)]
pub struct Dragging {
    pub start: Pos2,
    pub current: Pos2,
    pub offset: Pos2,
}

impl Dragging {
    pub fn start(&self) -> (r: Pos2)
        ensures
            r == self.start,
    {
        self.start
    }

    pub fn current(&self) -> (r: Pos2)
        ensures
            r == self.current,
    {
        self.current
    }

    /// Where the view's top-left corner would be if it followed the mouse.
    pub fn offset(&self) -> (r: Pos2)
        ensures
            r == self.offset,
    {
        self.offset
    }
}

/// What the mouse did over a mouse area during the last frame.
#[derive(Copy, Clone, Debug, PartialEq, Eq, Structural)]
pub struct MouseAreaResponse {
    pub clicked: bool,
    pub hovered: bool,
    pub held: bool,
    pub pos: Pos2,
    pub entered: bool,
    pub leave: bool,
    pub dragged: Option<DragState>,
    pub scrolled: Option<Vec2>,
}

/// The drag a response reports, when the view's corner stays within `i32`.
pub open spec fn can_report_drag(r: MouseAreaResponse) -> bool {
    match r.dragged {
        Some(d) => fits_i32(d.pos.x + d.offset.x) && fits_i32(d.pos.y + d.offset.y),
        None => true,
    }
}

impl MouseAreaResponse {
    pub fn position(&self) -> (r: Pos2)
        ensures
            r == self.pos,
    {
        self.pos
    }

    pub fn clicked(&self) -> (r: bool)
        ensures
            r == self.clicked,
    {
        self.clicked
    }

    pub fn hovered(&self) -> (r: bool)
        ensures
            r == self.hovered,
    {
        self.hovered
    }

    pub fn held(&self) -> (r: bool)
        ensures
            r == self.held,
    {
        self.held
    }

    pub fn entered(&self) -> (r: bool)
        ensures
            r == self.entered,
    {
        self.entered
    }

    pub fn leave(&self) -> (r: bool)
        ensures
            r == self.leave,
    {
        self.leave
    }

    /// The drag in progress, with the view's corner moved along with the mouse.
    pub fn dragged(&self) -> (r: Option<Dragging>)
        requires
            can_report_drag(*self),
        ensures
            r == (match self.dragged {
                Some(d) => Some(
                    Dragging {
                        start: d.start,
                        current: d.pos,
                        offset: Pos2 { x: (d.pos.x + d.offset.x) as i32, y: (d.pos.y + d.offset.y) as i32 },
                    },
                ),
                None => None,
            }),
    {
        match self.dragged {
            Some(d) => Some(
                Dragging {
                    start: d.start,
                    current: d.pos,
                    offset: Pos2 { x: d.pos.x + d.offset.x, y: d.pos.y + d.offset.y },
                },
            ),
            None => None,
        }
    }

    pub fn scrolled(&self) -> (r: Option<Vec2>)
        ensures
            r == self.scrolled,
    {
        self.scrolled
    }
}

/// Where the mouse stands relative to the area.
#[derive(Copy, Clone, Debug, PartialEq, Eq, Structural)]
pub enum MouseState {
    Away,
    Hovering,
    Held,
}

/// Records what the mouse does over it until the next frame reads it.
#[derive(Copy, Clone, Debug, PartialEq, Eq, Structural)]
pub struct MouseArea {
    pub state: MouseState,
    pub clicked: bool,
    pub pos: Pos2,
    pub entered: bool,
    pub leave: bool,
    pub scrolled: Option<Vec2>,
    pub dragged: Option<DragState>,
}

/// A new drag may start at `current` over a view whose corner is `corner`.
pub open spec fn can_track(area: MouseArea, event: ViewEvent, corner: Pos2) -> bool {
    match event {
        ViewEvent::MouseDrag { current, inside, .. } => inside && area.dragged is None ==> corner.can_sub(current),
        _ => true,
    }
}

/// The area after `event`, over a view whose top-left corner is `corner`.
pub open spec fn area_after(area: MouseArea, event: ViewEvent, corner: Pos2) -> MouseArea {
    match event {
        ViewEvent::MouseMove { pos, .. } => MouseArea { state: MouseState::Away, pos, dragged: None, ..area },
        ViewEvent::MouseDrag { start, current, inside, .. } => if !inside {
            MouseArea { state: MouseState::Held, dragged: None, ..area }
        } else {
            let d = match area.dragged {
                Some(d) => d,
                None => DragState {
                    start,
                    pos: current,
                    offset: Vec2 { x: (corner.x - current.x) as i32, y: (corner.y - current.y) as i32 },
                },
            };
            MouseArea { state: MouseState::Held, dragged: Some(DragState { pos: current, ..d }), ..area }
        },
        ViewEvent::MouseScroll { delta, .. } => MouseArea { scrolled: Some(delta), ..area },
        ViewEvent::MouseEntered => MouseArea { entered: true, state: MouseState::Hovering, ..area },
        ViewEvent::MouseLeave => MouseArea { leave: true, state: MouseState::Away, ..area },
        _ => area,
    }
}

/// The events a mouse area sinks: moves, drags over it, scrolls, entries and leaves.
pub open spec fn area_sinks(event: ViewEvent) -> bool {
    match event {
        ViewEvent::MouseMove { .. } => true,
        ViewEvent::MouseDrag { inside, .. } => inside,
        ViewEvent::MouseScroll { .. } => true,
        ViewEvent::MouseEntered => true,
        ViewEvent::MouseLeave => true,
        _ => false,
    }
}

impl MouseArea {
    /// Nothing recorded yet.
    pub fn new() -> (r: MouseArea)
        ensures
            r == (MouseArea {
                state: MouseState::Away,
                clicked: false,
                pos: Pos2 { x: 0, y: 0 },
                entered: false,
                leave: false,
                scrolled: None,
                dragged: None,
            }),
    {
        MouseArea {
            state: MouseState::Away,
            clicked: false,
            pos: Pos2 { x: 0, y: 0 },
            entered: false,
            leave: false,
            scrolled: None,
            dragged: None,
        }
    }

    /// Hand out the frame's record; the hover state, the click and the
    /// scroll start afresh.
    pub fn update(&mut self) -> (r: MouseAreaResponse)
        ensures
            r == (MouseAreaResponse {
                pos: old(self).pos,
                clicked: old(self).clicked,
                hovered: old(self).state == MouseState::Hovering,
                held: old(self).state == MouseState::Held,
                dragged: old(self).dragged,
                scrolled: old(self).scrolled,
                entered: old(self).entered,
                leave: old(self).leave,
            }),
            *final(self) == (MouseArea {
                state: MouseState::Away,
                clicked: false,
                scrolled: None,
                ..*old(self)
            }),
    {
        let state = self.state;
        let r = MouseAreaResponse {
            pos: self.pos,
            clicked: self.clicked,
            hovered: match state {
                MouseState::Hovering => true,
                _ => false,
            },
            held: match state {
                MouseState::Held => true,
                _ => false,
            },
            dragged: self.dragged,
            scrolled: self.scrolled,
            entered: self.entered,
            leave: self.leave,
        };
        self.state = MouseState::Away;
        self.clicked = false;
        self.scrolled = None;
        r
    }

    /// A mouse area wants every mouse event.
    pub fn interests(&self) -> (r: Interest)
        ensures
            r.0 == mouse_inside_bit() | mouse_outside_bit() | mouse_move_bit(),
    {
        assert(1u8 | 2u8 | 4u8 == 7u8) by (bit_vector);
        Interest(7)
    }

    /// Record `event`; `corner` is the top-left corner of the area's rectangle.
    pub fn event(&mut self, event: ViewEvent, corner: Pos2) -> (r: Handled)
        requires
            can_track(*old(self), event, corner),
        ensures
            *final(self) == area_after(*old(self), event, corner),
            r == (if area_sinks(event) {
                Handled::Sink
            } else {
                Handled::Bubble
            }),
    {
        match event {
            ViewEvent::MouseMove { pos, .. } => {
                self.state = MouseState::Away;
                self.pos = pos;
                self.dragged = None;
            },
            ViewEvent::MouseDrag { start, current, inside, .. } => {
                self.state = MouseState::Held;
                if !inside {
                    self.dragged = None;
                    return Handled::Bubble;
                }
                let d = match self.dragged {
                    Some(d) => d,
                    None => DragState {
                        start,
                        pos: current,
                        offset: corner.sub(current).to_vec2(),
                    },
                };
                self.dragged = Some(DragState { pos: current, ..d });
            },
            ViewEvent::MouseScroll { delta, .. } => {
                self.scrolled = Some(delta);
            },
            ViewEvent::MouseEntered => {
                self.entered = true;
                self.state = MouseState::Hovering;
            },
            ViewEvent::MouseLeave => {
                self.leave = true;
                self.state = MouseState::Away;
            },
            _ => {
                return Handled::Bubble;
            },
        }
        Handled::Sink
    }
}

/// A drag keeps the point where it started and the corner offset it began
/// with for as long as it goes on over the area.
pub proof fn lemma_drag_keeps_origin(area: MouseArea, event: ViewEvent, corner: Pos2)
    requires
        area.dragged is Some,
        event matches ViewEvent::MouseDrag { inside, .. } && inside,
    ensures
        area_after(area, event, corner).dragged is Some,
        area_after(area, event, corner).dragged->0.start == area.dragged->0.start,
        area_after(area, event, corner).dragged->0.offset == area.dragged->0.offset,
{
}

/// Leaving undoes entering: after the mouse leaves, the area is not
/// hovered (the next frame reports `hovered == false`) and records the
/// leave; after it enters, the area is hovered and records the entry. So
/// an entry followed by a leave ends not hovered, and a leave followed by
/// an entry ends hovered.
pub proof fn lemma_leave_undoes_enter(area: MouseArea, corner: Pos2)
    ensures
        area_after(area, ViewEvent::MouseLeave, corner).state != MouseState::Hovering,
        area_after(area, ViewEvent::MouseLeave, corner).leave,
        area_after(area, ViewEvent::MouseEntered, corner).state == MouseState::Hovering,
        area_after(area, ViewEvent::MouseEntered, corner).entered,
        area_after(area_after(area, ViewEvent::MouseEntered, corner), ViewEvent::MouseLeave, corner).state
            != MouseState::Hovering,
        area_after(area_after(area, ViewEvent::MouseLeave, corner), ViewEvent::MouseEntered, corner).state
            == MouseState::Hovering,
        area_after(area, ViewEvent::MouseLeave, corner).pos == area.pos,
        area_after(area, ViewEvent::MouseEntered, corner).pos == area.pos,
{
}

/// A move records where the mouse is and leaves the area neither hovered
/// nor held, with no drag going on.
pub proof fn lemma_move_records_position(area: MouseArea, pos: Pos2, modifiers: Modifiers, corner: Pos2)
    ensures
        area_after(area, ViewEvent::MouseMove { pos, modifiers }, corner).pos == pos,
        area_after(area, ViewEvent::MouseMove { pos, modifiers }, corner).state == MouseState::Away,
        area_after(area, ViewEvent::MouseMove { pos, modifiers }, corner).dragged is None,
{
}

/// A drag over the area holds it and follows the mouse: the drag is at the
/// current point, and a drag that starts records where it started and the
/// offset from the area's corner to that point. A drag off the area holds
/// it with no drag going on.
pub proof fn lemma_drag_follows_mouse(
    area: MouseArea,
    start: Pos2,
    current: Pos2,
    delta: Vec2,
    inside: bool,
    modifiers: Modifiers,
    button: MouseButton,
    corner: Pos2,
)
    requires
        corner.can_sub(current),
    ensures
        ({
            let a = area_after(area, ViewEvent::MouseDrag { start, current, delta, inside, modifiers, button }, corner);
            &&& a.state == MouseState::Held
            &&& inside ==> (a.dragged matches Some(d) && d.pos == current)
            &&& inside && area.dragged is None ==> a.dragged->0.start == start && a.dragged->0.offset == (Vec2 {
                x: (corner.x - current.x) as i32,
                y: (corner.y - current.y) as i32,
            })
            &&& !inside ==> a.dragged is None
        }),
{
}

/// A turn of the wheel is recorded as it was, leaving the rest alone.
pub proof fn lemma_scroll_recorded(area: MouseArea, delta: Vec2, modifiers: Modifiers, corner: Pos2)
    ensures
        area_after(area, ViewEvent::MouseScroll { delta, modifiers }, corner) == (MouseArea {
            scrolled: Some(delta),
            ..area
        }),
{
}

} // verus!
