//! A view that scrolls its children: which axes scroll, and how keys, the
//! wheel and drags move the scrolled content.
use vstd::prelude::*;
use crate::geom::Vec2;
use crate::input::ViewEvent;
use crate::keys::{Key, Modifiers};

verus! {

/// The axes a scrollable view scrolls along.
#[derive(Copy, Clone, Debug, PartialEq, Eq, Structural)]
pub enum ScrollAxis {
    Horizontal,
    Vertical,
    Both,
}

impl ScrollAxis {
    pub open spec fn spec_horizontal(self, using: bool) -> ScrollAxis {
        match self {
            ScrollAxis::Vertical => if using {
                ScrollAxis::Both
            } else {
                self
            },
            ScrollAxis::Horizontal | ScrollAxis::Both => if !using {
                ScrollAxis::Vertical
            } else {
                self
            },
        }
    }

    pub open spec fn spec_vertical(self, using: bool) -> ScrollAxis {
        match self {
            ScrollAxis::Horizontal => if using {
                ScrollAxis::Both
            } else {
                self
            },
            ScrollAxis::Vertical | ScrollAxis::Both => if !using {
                ScrollAxis::Horizontal
            } else {
                self
            },
        }
    }

    /// Also scroll horizontally, or stop doing so (then scroll vertically).
    pub fn horizontal(self, using: bool) -> (r: ScrollAxis)
        ensures
            r == self.spec_horizontal(using),
    {
        match self {
            ScrollAxis::Vertical => if using {
                ScrollAxis::Both
            } else {
                self
            },
            ScrollAxis::Horizontal | ScrollAxis::Both => if !using {
                ScrollAxis::Vertical
            } else {
                self
            },
        }
    }

    /// Also scroll vertically, or stop doing so (then scroll horizontally).
    pub fn vertical(self, using: bool) -> (r: ScrollAxis)
        ensures
            r == self.spec_vertical(using),
    {
        match self {
            ScrollAxis::Horizontal => if using {
                ScrollAxis::Both
            } else {
                self
            },
            ScrollAxis::Vertical | ScrollAxis::Both => if !using {
                ScrollAxis::Horizontal
            } else {
                self
            },
        }
    }
}

/// The options of a scrollable view.
#[derive(Copy, Clone, Debug, PartialEq, Eq, Structural)]
pub struct Scrollable {
    pub axis: ScrollAxis,
}

/// A view that scrolls vertically.
pub fn scrollable() -> (s: Scrollable)
    ensures
        s == (Scrollable { axis: ScrollAxis::Vertical }),
{
    Scrollable { axis: ScrollAxis::Vertical }
}

impl Scrollable {
    pub fn horizontal(self, horizontal: bool) -> (s: Scrollable)
        ensures
            s == (Scrollable { axis: self.axis.spec_horizontal(horizontal) }),
    {
        Scrollable { axis: self.axis.horizontal(horizontal) }
    }

    pub fn vertical(self, vertical: bool) -> (s: Scrollable)
        ensures
            s == (Scrollable { axis: self.axis.spec_vertical(vertical) }),
    {
        Scrollable { axis: self.axis.vertical(vertical) }
    }

    pub open spec fn spec_has_horizontal(self) -> bool {
        self.axis == ScrollAxis::Horizontal || self.axis == ScrollAxis::Both
    }

    pub open spec fn spec_has_vertical(self) -> bool {
        self.axis == ScrollAxis::Vertical || self.axis == ScrollAxis::Both
    }

    pub fn has_horizontal(&self) -> (r: bool)
        ensures
            r == self.spec_has_horizontal(),
    {
        match self.axis {
            ScrollAxis::Horizontal | ScrollAxis::Both => true,
            ScrollAxis::Vertical => false,
        }
    }

    pub fn has_vertical(&self) -> (r: bool)
        ensures
            r == self.spec_has_vertical(),
    {
        match self.axis {
            ScrollAxis::Vertical | ScrollAxis::Both => true,
            ScrollAxis::Horizontal => false,
        }
    }
}

/// Turning an axis on makes the view scroll along it; turning it off makes
/// the view scroll along the other axis only.
pub proof fn lemma_axis_switches(a: ScrollAxis)
    ensures
        (Scrollable { axis: a.spec_horizontal(true) }).spec_has_horizontal(),
        (Scrollable { axis: a.spec_vertical(true) }).spec_has_vertical(),
        !(Scrollable { axis: a.spec_horizontal(false) }).spec_has_horizontal(),
        !(Scrollable { axis: a.spec_vertical(false) }).spec_has_vertical(),
        (Scrollable { axis: a.spec_horizontal(true) }).spec_has_vertical() == (Scrollable { axis: a }).spec_has_vertical(),
{
}

/// A scrolling view: the scroll offset (zero or negative), the size of its
/// content and the size it shows.
#[derive(Copy, Clone, Debug, PartialEq, Eq, Structural)]
pub struct ScrollView {
    pub opts: Scrollable,
    pub pos: Vec2,
    pub child_size: Vec2,
    pub size: Vec2,
    pub x_hovered: bool,
    pub y_hovered: bool,
}

/// The displacement a key, a wheel turn or a drag asks for; `None` for the
/// events this does not decide (moves over the knobs, drags of a knob, and
/// everything else).
pub open spec fn scroll_delta_spec(v: ScrollView, event: ViewEvent) -> Option<Vec2> {
    match event {
        ViewEvent::KeyInput { key, modifiers } => match key {
            Key::Up => Some(Vec2 { x: 0, y: -1i32 }),
            Key::Down => Some(Vec2 { x: 0, y: 1 }),
            Key::Left => Some(Vec2 { x: -1i32, y: 0 }),
            Key::Right => Some(Vec2 { x: 1, y: 0 }),
            Key::PageUp => if modifiers.has(2) {
                Some(Vec2 { x: (-v.size.x) as i32, y: 0 })
            } else {
                Some(Vec2 { x: 0, y: (-v.size.y) as i32 })
            },
            Key::PageDown => if modifiers.has(2) {
                Some(Vec2 { x: v.size.x, y: 0 })
            } else {
                Some(Vec2 { x: 0, y: v.size.y })
            },
            Key::Home => if modifiers.has(2) {
                Some(Vec2 { x: i32::MIN, y: 0 })
            } else {
                Some(Vec2 { x: 0, y: i32::MIN })
            },
            Key::End => if modifiers.has(2) {
                Some(Vec2 { x: i32::MAX, y: 0 })
            } else {
                Some(Vec2 { x: 0, y: i32::MAX })
            },
            _ => None,
        },
        ViewEvent::MouseScroll { delta, modifiers } => if modifiers.0 == 2 {
            Some(Vec2 { x: delta.y, y: 0 })
        } else {
            Some(Vec2 { x: 0, y: (-delta.y) as i32 })
        },
        ViewEvent::MouseDrag { delta, modifiers, inside, .. } => if inside && !v.y_hovered && !v.x_hovered {
            if modifiers.has(4) {
                Some(Vec2 { x: (-delta.x) as i32, y: (-delta.y) as i32 })
            } else if modifiers.0 == 2 {
                Some(Vec2 { x: delta.x, y: 0 })
            } else {
                Some(Vec2 { x: 0, y: delta.y })
            }
        } else {
            None
        },
        _ => None,
    }
}

/// The sizes are such that no displacement overflows.
pub open spec fn scroll_sizes_ok(v: ScrollView) -> bool {
    &&& 0 <= v.size.x
    &&& 0 <= v.size.y
    &&& v.child_size.x > i32::MIN
    &&& v.child_size.y > i32::MIN
}

/// The event's own numbers can be negated.
pub open spec fn scroll_event_ok(event: ViewEvent) -> bool {
    match event {
        ViewEvent::MouseScroll { delta, .. } => delta.y > i32::MIN,
        ViewEvent::MouseDrag { delta, .. } => delta.x > i32::MIN && delta.y > i32::MIN,
        _ => true,
    }
}

pub open spec fn abs(v: int) -> int {
    if v < 0 {
        -v
    } else {
        v
    }
}

/// `a - b`, kept within `i32`.
pub open spec fn saturating_sub(a: i32, b: i32) -> i32 {
    if a - b > i32::MAX {
        i32::MAX
    } else if a - b < i32::MIN {
        i32::MIN
    } else {
        (a - b) as i32
    }
}

/// The offset along one axis after moving by `d`: never positive, and never
/// past the end of content of length `extent` shown in `visible` cells.
pub open spec fn scrolled_axis(pos: i32, d: i32, extent: i32, visible: i32) -> i32 {
    let v = if saturating_sub(pos, d) <= 0 {
        saturating_sub(pos, d)
    } else {
        0
    };
    let lo = -(abs(extent as int) - visible);
    if v >= lo {
        v
    } else {
        lo as i32
    }
}

fn scroll_axis(pos: i32, d: i32, extent: i32, visible: i32) -> (r: i32)
    requires
        extent > i32::MIN,
        0 <= visible,
    ensures
        r == scrolled_axis(pos, d, extent, visible),
{
    let t: i64 = pos as i64 - d as i64;
    let v: i32 = if t > i32::MAX as i64 {
        i32::MAX
    } else if t < i32::MIN as i64 {
        i32::MIN
    } else {
        t as i32
    };
    let v = if v <= 0 {
        v
    } else {
        0
    };
    let e: i32 = if extent < 0 {
        -extent
    } else {
        extent
    };
    let lo = -(e - visible);
    if v >= lo {
        v
    } else {
        lo
    }
}

impl ScrollView {
    /// The displacement an event asks for, when it is a key, a wheel turn or
    /// a drag of the content.
    pub fn scroll_delta(&self, event: ViewEvent) -> (r: Option<Vec2>)
        requires
            scroll_sizes_ok(*self),
            scroll_event_ok(event),
        ensures
            r == scroll_delta_spec(*self, event),
    {
        match event {
            ViewEvent::KeyInput { key, modifiers } => match key {
                Key::Up => Some(Vec2 { x: 0, y: -1 }),
                Key::Down => Some(Vec2 { x: 0, y: 1 }),
                Key::Left => Some(Vec2 { x: -1, y: 0 }),
                Key::Right => Some(Vec2 { x: 1, y: 0 }),
                Key::PageUp => if modifiers.is_ctrl() {
                    Some(Vec2 { x: -self.size.x, y: 0 })
                } else {
                    Some(Vec2 { x: 0, y: -self.size.y })
                },
                Key::PageDown => if modifiers.is_ctrl() {
                    Some(Vec2 { x: self.size.x, y: 0 })
                } else {
                    Some(Vec2 { x: 0, y: self.size.y })
                },
                Key::Home => if modifiers.is_ctrl() {
                    Some(Vec2 { x: i32::MIN, y: 0 })
                } else {
                    Some(Vec2 { x: 0, y: i32::MIN })
                },
                Key::End => if modifiers.is_ctrl() {
                    Some(Vec2 { x: i32::MAX, y: 0 })
                } else {
                    Some(Vec2 { x: 0, y: i32::MAX })
                },
                _ => None,
            },
            ViewEvent::MouseScroll { delta, modifiers } => if modifiers.is_ctrl_only() {
                Some(Vec2 { x: delta.y, y: 0 })
            } else {
                Some(Vec2 { x: 0, y: -delta.y })
            },
            ViewEvent::MouseDrag { delta, modifiers, inside, .. } => if inside && !self.y_hovered
                && !self.x_hovered {
                if modifiers.is_alt() {
                    Some(Vec2 { x: -delta.x, y: -delta.y })
                } else if modifiers.is_ctrl_only() {
                    Some(Vec2 { x: delta.x, y: 0 })
                } else {
                    Some(Vec2 { x: 0, y: delta.y })
                }
            } else {
                None
            },
            _ => None,
        }
    }

    /// Move the content by `delta` along the axes that scroll.
    pub fn scroll_by(&mut self, delta: Vec2)
        requires
            scroll_sizes_ok(*old(self)),
        ensures
            *final(self) == (ScrollView {
                pos: Vec2 {
                    x: if old(self).opts.spec_has_horizontal() {
                        scrolled_axis(old(self).pos.x, delta.x, old(self).child_size.x, old(self).size.x)
                    } else {
                        old(self).pos.x
                    },
                    y: if old(self).opts.spec_has_vertical() {
                        scrolled_axis(old(self).pos.y, delta.y, old(self).child_size.y, old(self).size.y)
                    } else {
                        old(self).pos.y
                    },
                },
                ..*old(self)
            }),
    {
        if self.opts.has_horizontal() {
            self.pos.x = scroll_axis(self.pos.x, delta.x, self.child_size.x, self.size.x);
        }
        if self.opts.has_vertical() {
            self.pos.y = scroll_axis(self.pos.y, delta.y, self.child_size.y, self.size.y);
        }
    }
}

/// A scrolled offset is never positive while the content is at least as
/// large as what is shown, and never scrolls past the content's end.
pub proof fn lemma_scroll_in_bounds(pos: i32, d: i32, extent: i32, visible: i32)
    requires
        extent > i32::MIN,
        0 <= visible <= abs(extent as int),
    ensures
        scrolled_axis(pos, d, extent, visible) <= 0,
        scrolled_axis(pos, d, extent, visible) >= -(abs(extent as int) - visible),
{
}

/// The arrow keys ask for one cell each way: Up and Down move along y in
/// opposite directions (Up towards the top, negative), Left and Right along
/// x (Left negative), whatever the modifiers and the view.
pub proof fn lemma_arrows_point_their_way(v: ScrollView, modifiers: Modifiers)
    ensures
        ({
            let up = scroll_delta_spec(v, ViewEvent::KeyInput { key: Key::Up, modifiers });
            let down = scroll_delta_spec(v, ViewEvent::KeyInput { key: Key::Down, modifiers });
            let left = scroll_delta_spec(v, ViewEvent::KeyInput { key: Key::Left, modifiers });
            let right = scroll_delta_spec(v, ViewEvent::KeyInput { key: Key::Right, modifiers });
            &&& up matches Some(u) && u.x == 0 && u.y < 0
            &&& down matches Some(d) && d.x == 0 && d.y > 0
            &&& up->0.y == -down->0.y
            &&& left matches Some(l) && l.y == 0 && l.x < 0
            &&& right matches Some(r) && r.y == 0 && r.x > 0
            &&& left->0.x == -right->0.x
        }),
{
}

/// Page Up and Page Down ask for opposite displacements of one view's
/// height (of one view's width with Ctrl), and Home and End for the
/// farthest displacements towards the start and the end.
pub proof fn lemma_pages_and_ends_are_opposite(v: ScrollView, modifiers: Modifiers)
    requires
        scroll_sizes_ok(v),
    ensures
        ({
            let pu = scroll_delta_spec(v, ViewEvent::KeyInput { key: Key::PageUp, modifiers })->0;
            let pd = scroll_delta_spec(v, ViewEvent::KeyInput { key: Key::PageDown, modifiers })->0;
            let home = scroll_delta_spec(v, ViewEvent::KeyInput { key: Key::Home, modifiers })->0;
            let end = scroll_delta_spec(v, ViewEvent::KeyInput { key: Key::End, modifiers })->0;
            &&& pu.x == -pd.x && pu.y == -pd.y
            &&& pd.x + pd.y == if modifiers.has(2) {
                v.size.x
            } else {
                v.size.y
            }
            &&& pd.x == 0 || pd.y == 0
            &&& home.x <= 0 && home.y <= 0 && home.x + home.y == i32::MIN
            &&& end.x >= 0 && end.y >= 0 && end.x + end.y == i32::MAX
        }),
{
}

/// Turning the wheel moves the content against the turn: a turn with a
/// positive `y` asks for a negative displacement, and the reverse.
pub proof fn lemma_wheel_against_turn(v: ScrollView, delta: Vec2, modifiers: Modifiers)
    requires
        modifiers.0 != 2,
        delta.y > i32::MIN,
    ensures
        scroll_delta_spec(v, ViewEvent::MouseScroll { delta, modifiers }) matches Some(d) && d.x == 0
            && d.y == -delta.y,
{
}

/// On a view scrolled along y that is not at the top, Up brings the content
/// one row back towards the top; on one that is not at the bottom, Down
/// takes it one row further.
pub proof fn lemma_up_and_down_move_one_row(v: ScrollView, modifiers: Modifiers)
    requires
        scroll_sizes_ok(v),
        v.opts.spec_has_vertical(),
        -(abs(v.child_size.y as int) - v.size.y) <= v.pos.y <= 0,
    ensures
        v.pos.y < 0 ==> scrolled_axis(
            v.pos.y,
            scroll_delta_spec(v, ViewEvent::KeyInput { key: Key::Up, modifiers })->0.y,
            v.child_size.y,
            v.size.y,
        ) == v.pos.y + 1,
        v.pos.y > -(abs(v.child_size.y as int) - v.size.y) ==> scrolled_axis(
            v.pos.y,
            scroll_delta_spec(v, ViewEvent::KeyInput { key: Key::Down, modifiers })->0.y,
            v.child_size.y,
            v.size.y,
        ) == v.pos.y - 1,
{
}

} // verus!
