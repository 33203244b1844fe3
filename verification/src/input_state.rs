//! The input state: where the mouse is, which buttons are held, which views
//! are hovered, focused and selected, and how backend events become view
//! events delivered to the views.
use vstd::prelude::*;
use crate::geom::{Pos2, Rect, Vec2};
use crate::input::{ButtonState, Handled, ViewEvent, ViewId};
use crate::interest::{
    focus_input_bit, mouse_move_bit, mouse_outside_bit, selection_change_bit, Interest,
};
use crate::keys::{Event, Key, Keybind, Modifiers, MouseButton};
use crate::layout::{interest_order, LayoutNode, LayoutNodes};

verus! {

/// The state of each mouse button; a button never reported is up.
#[derive(Copy, Clone, Debug, PartialEq, Eq, Structural)]
pub struct Buttons {
    pub primary: ButtonState,
    pub secondary: ButtonState,
    pub middle: ButtonState,
}

impl Buttons {
    pub open spec fn state(self, button: MouseButton) -> ButtonState {
        match button {
            MouseButton::Primary => self.primary,
            MouseButton::Secondary => self.secondary,
            MouseButton::Middle => self.middle,
        }
    }

    pub open spec fn with(self, button: MouseButton, state: ButtonState) -> Buttons {
        match button {
            MouseButton::Primary => Buttons { primary: state, ..self },
            MouseButton::Secondary => Buttons { secondary: state, ..self },
            MouseButton::Middle => Buttons { middle: state, ..self },
        }
    }

    pub open spec fn settled(self) -> Buttons {
        Buttons {
            primary: self.primary.settled(),
            secondary: self.secondary.settled(),
            middle: self.middle.settled(),
        }
    }

    /// Every button up.
    pub fn new() -> (r: Buttons)
        ensures
            r.primary == ButtonState::Up,
            r.secondary == ButtonState::Up,
            r.middle == ButtonState::Up,
    {
        Buttons { primary: ButtonState::Up, secondary: ButtonState::Up, middle: ButtonState::Up }
    }

    pub fn get(&self, button: MouseButton) -> (r: ButtonState)
        ensures
            r == self.state(button),
    {
        match button {
            MouseButton::Primary => self.primary,
            MouseButton::Secondary => self.secondary,
            MouseButton::Middle => self.middle,
        }
    }

    pub fn set(&mut self, button: MouseButton, state: ButtonState)
        ensures
            *final(self) == old(self).with(button, state),
    {
        match button {
            MouseButton::Primary => self.primary = state,
            MouseButton::Secondary => self.secondary = state,
            MouseButton::Middle => self.middle = state,
        }
    }

    /// Turn every fresh press or release into a settled one.
    pub fn settle_all(&mut self)
        ensures
            *final(self) == old(self).settled(),
    {
        self.primary.settle();
        self.secondary.settle();
        self.middle.settle();
    }
}

/// The views under the mouse, the views told that the mouse entered them,
/// and the views that swallowed that news.
pub struct Intersections {
    hit: Vec<ViewId>,
    entered: Vec<ViewId>,
    sunk: Vec<ViewId>,
}

/// A value whose changes are announced once per frame: the current value
/// and the value last announced.
#[derive(Copy, Clone, Debug, PartialEq, Eq, Structural)]
pub struct Notify {
    pub current: Option<ViewId>,
    pub prev: Option<ViewId>,
}

impl Notify {
    pub fn get(&self) -> (r: Option<ViewId>)
        ensures
            r == self.current,
    {
        self.current
    }

    pub fn set(&mut self, value: Option<ViewId>)
        ensures
            *final(self) == (Notify { current: value, ..*old(self) }),
    {
        self.current = value;
    }
}

struct Mouse {
    pos: Pos2,
    drag_start: Option<Pos2>,
    buttons: Buttons,
}

/// What the input state holds.
#[verifier::ext_equal]
pub struct InputModel {
    pub pos: Pos2,
    pub drag_start: Option<Pos2>,
    pub buttons: Buttons,
    pub modifiers: Modifiers,
    pub hit: Seq<ViewId>,
    pub entered: Seq<ViewId>,
    pub sunk: Seq<ViewId>,
    pub focus: Notify,
    pub selection: Notify,
    pub key_press: Option<Keybind>,
}

/// The input state tree.
pub struct InputState {
    mouse: Mouse,
    modifiers: Modifiers,
    intersections: Intersections,
    focus: Notify,
    selection: Notify,
    key_press: Option<Keybind>,
}

impl View for InputState {
    type V = InputModel;

    closed spec fn view(&self) -> InputModel {
        InputModel {
            pos: self.mouse.pos,
            drag_start: self.mouse.drag_start,
            buttons: self.mouse.buttons,
            modifiers: self.modifiers,
            hit: self.intersections.hit@,
            entered: self.intersections.entered@,
            sunk: self.intersections.sunk@,
            focus: self.focus,
            selection: self.selection,
            key_press: self.key_press,
        }
    }
}

/// The elements of `s` other than `id`, in order.
pub open spec fn without(s: Seq<ViewId>, id: ViewId) -> Seq<ViewId>
    decreases s.len(),
{
    if s.len() == 0 {
        s
    } else if s.last() == id {
        without(s.drop_last(), id)
    } else {
        without(s.drop_last(), id).push(s.last())
    }
}

/// The elements of `s` that do not occur in `t`, in order.
pub open spec fn not_in(s: Seq<ViewId>, t: Seq<ViewId>) -> Seq<ViewId>
    decreases s.len(),
{
    if s.len() == 0 {
        s
    } else if t.contains(s.last()) {
        not_in(s.drop_last(), t)
    } else {
        not_in(s.drop_last(), t).push(s.last())
    }
}

/// `entered` after appending, in order, each element of `s` it lacks.
pub open spec fn added(entered: Seq<ViewId>, s: Seq<ViewId>) -> Seq<ViewId>
    decreases s.len(),
{
    if s.len() == 0 {
        entered
    } else {
        let e = added(entered, s.drop_last());
        if e.contains(s.last()) {
            e
        } else {
            e.push(s.last())
        }
    }
}

/// The ids of the entries whose interest has `bit`, in order.
pub open spec fn ids_with(entries: Seq<(ViewId, Interest)>, bit: u8) -> Seq<ViewId>
    decreases entries.len(),
{
    if entries.len() == 0 {
        Seq::empty()
    } else if entries.last().1.has(bit) {
        ids_with(entries.drop_last(), bit).push(entries.last().0)
    } else {
        ids_with(entries.drop_last(), bit)
    }
}

/// The ids of the entries that want mouse events outside of them and are not hit.
pub open spec fn outside_ids(entries: Seq<(ViewId, Interest)>, hit: Seq<ViewId>) -> Seq<ViewId>
    decreases entries.len(),
{
    if entries.len() == 0 {
        Seq::empty()
    } else if entries.last().1.has(mouse_outside_bit()) && !hit.contains(entries.last().0) {
        outside_ids(entries.drop_last(), hit).push(entries.last().0)
    } else {
        outside_ids(entries.drop_last(), hit)
    }
}

/// The rectangle of a node cut down by the rectangles of the nodes that clip
/// it, walking up at most `fuel` clipping parents; `None` when the walk
/// meets a missing parent or runs out of fuel.
pub open spec fn clip_walk(nodes: Map<u64, LayoutNode>, node: LayoutNode, rect: Rect, fuel: nat) -> Option<Rect>
    decreases fuel,
{
    match node.clipped_by {
        None => Some(rect),
        Some(parent) => if fuel > 0 && nodes.contains_key(parent.0) {
            clip_walk(nodes, nodes[parent.0], rect.spec_intersection(nodes[parent.0].rect), (fuel - 1) as nat)
        } else {
            None
        },
    }
}

/// The visible rectangle of a node.
pub open spec fn visible_rect(nodes: Map<u64, LayoutNode>, node: LayoutNode) -> Option<Rect> {
    clip_walk(nodes, node, node.rect, usize::MAX as nat)
}

/// Every clipping chain of the layout ends at a node that is not clipped.
pub open spec fn clips_resolve(nodes: Map<u64, LayoutNode>) -> bool {
    forall|k: u64| nodes.contains_key(k) ==> (#[trigger] visible_rect(nodes, nodes[k])).is_some()
}

/// The ids of the entries whose node is laid out and visible at `pos`, in order.
pub open spec fn hits(entries: Seq<(ViewId, Interest)>, nodes: Map<u64, LayoutNode>, pos: Pos2) -> Seq<ViewId>
    decreases entries.len(),
{
    if entries.len() == 0 {
        Seq::empty()
    } else {
        let id = entries.last().0;
        let before = hits(entries.drop_last(), nodes, pos);
        if nodes.contains_key(id.0) && visible_rect(nodes, nodes[id.0]).is_some()
            && visible_rect(nodes, nodes[id.0]).unwrap().spec_contains(pos) {
            before.push(id)
        } else {
            before
        }
    }
}

/// One event handed to one view, and the view's answer (`None` when no
/// such view exists).
pub struct Delivery {
    pub id: ViewId,
    pub event: ViewEvent,
    pub reply: Option<Handled>,
}

/// The answer as the dispatcher reads it: a missing view lets the event bubble.
pub open spec fn answer(d: Delivery) -> Handled {
    match d.reply {
        Some(h) => h,
        None => Handled::Bubble,
    }
}

/// `a` hands `ev` to each of `ids`, in order.
pub open spec fn sent(a: Seq<Delivery>, ids: Seq<ViewId>, ev: ViewEvent) -> bool {
    &&& a.len() == ids.len()
    &&& forall|k: int| 0 <= k < a.len() ==> (#[trigger] a[k]).id == ids[k] && a[k].event == ev
}

/// `a` hands `ev` to `ids` in order until one of them sinks it.
pub open spec fn offered(a: Seq<Delivery>, ids: Seq<ViewId>, ev: ViewEvent) -> bool {
    &&& a.len() <= ids.len()
    &&& sent(a, ids.take(a.len() as int), ev)
    &&& forall|k: int| 0 <= k < a.len() - 1 ==> answer(#[trigger] a[k]) == Handled::Bubble
    &&& (a.len() == ids.len() || (a.len() > 0 && answer(a.last()) == Handled::Sink))
}

/// The last view that got the event sank it.
pub open spec fn sunk_by(a: Seq<Delivery>) -> bool {
    a.len() > 0 && answer(a.last()) == Handled::Sink
}

/// The views of the event tree, which answer the events handed to them.
pub trait ViewTree {
    /// Hand `event` to the view `id`; `None` when there is no such view.
    fn deliver(&mut self, input: &InputState, layout: &LayoutNodes, id: ViewId, event: ViewEvent) -> Option<Handled>;
}

/// A view tree together with the record of every event handed to it.
pub struct Dispatcher<T> {
    tree: T,
    log: Ghost<Seq<Delivery>>,
}

impl<T: ViewTree> Dispatcher<T> {
    /// Every event handed to the tree so far, in order, with its answer.
    pub closed spec fn log(&self) -> Seq<Delivery> {
        self.log@
    }

    pub fn new(tree: T) -> (r: Dispatcher<T>)
        ensures
            r.log() == Seq::<Delivery>::empty(),
            r.inner() == tree,
    {
        Dispatcher { tree, log: Ghost(Seq::empty()) }
    }

    /// The view tree events are handed to.
    pub closed spec fn inner(&self) -> T {
        self.tree
    }

    pub fn tree(&self) -> (r: &T)
        ensures
            *r == self.inner(),
    {
        &self.tree
    }

    pub fn into_tree(self) -> (r: T)
        ensures
            r == self.inner(),
    {
        self.tree
    }

    /// Hand `event` to `id` and record the delivery.
    pub fn send(&mut self, input: &InputState, layout: &LayoutNodes, id: ViewId, event: ViewEvent) -> (r: Option<Handled>)
        ensures
            final(self).log() == old(self).log().push(Delivery { id, event, reply: r }),
    {
        let r = self.tree.deliver(input, layout, id, event);
        proof {
            self.log@ = self.log@.push(Delivery { id, event, reply: r });
        }
        r
    }
}

/// True when `id` occurs in `v`.
pub fn contains_id(v: &Vec<ViewId>, id: ViewId) -> (r: bool)
    ensures
        r == v@.contains(id),
{
    let mut i: usize = 0;
    while i < v.len()
        invariant
            i <= v@.len(),
            forall|k: int| 0 <= k < i ==> v@[k] != id,
        decreases v@.len() - i,
    {
        if v[i] == id {
            assert(v@[i as int] == id);
            return true;
        }
        i = i + 1;
    }
    false
}

/// The elements of `v` other than `id`, in order.
pub fn without_id(v: &Vec<ViewId>, id: ViewId) -> (r: Vec<ViewId>)
    ensures
        r@ == without(v@, id),
{
    let mut out: Vec<ViewId> = Vec::new();
    let mut i: usize = 0;
    while i < v.len()
        invariant
            i <= v@.len(),
            out@ == without(v@.take(i as int), id),
        decreases v@.len() - i,
    {
        assert(v@.take(i as int + 1).drop_last() =~= v@.take(i as int));
        if v[i] != id {
            out.push(v[i]);
        }
        i = i + 1;
    }
    assert(v@.take(i as int) =~= v@);
    out
}

/// The elements of `v` that do not occur in `t`, in order.
pub fn not_in_ids(v: &Vec<ViewId>, t: &Vec<ViewId>) -> (r: Vec<ViewId>)
    ensures
        r@ == not_in(v@, t@),
{
    let mut out: Vec<ViewId> = Vec::new();
    let mut i: usize = 0;
    while i < v.len()
        invariant
            i <= v@.len(),
            out@ == not_in(v@.take(i as int), t@),
        decreases v@.len() - i,
    {
        assert(v@.take(i as int + 1).drop_last() =~= v@.take(i as int));
        if !contains_id(t, v[i]) {
            out.push(v[i]);
        }
        i = i + 1;
    }
    assert(v@.take(i as int) =~= v@);
    out
}

pub open spec fn initial_model() -> InputModel {
    InputModel {
        pos: Pos2 { x: 0, y: 0 },
        drag_start: None,
        buttons: Buttons {
            primary: ButtonState::Up,
            secondary: ButtonState::Up,
            middle: ButtonState::Up,
        },
        modifiers: Modifiers(0),
        hit: Seq::empty(),
        entered: Seq::empty(),
        sunk: Seq::empty(),
        focus: Notify { current: None, prev: None },
        selection: Notify { current: None, prev: None },
        key_press: None,
    }
}

/// The state of `button` after the backend reports it `down` (or up).
pub open spec fn pressed(state: ButtonState, down: bool) -> ButtonState {
    if !state.spec_is_down() && down {
        ButtonState::JustDown
    } else if state.spec_is_down() && !down {
        ButtonState::JustUp
    } else {
        state
    }
}

impl InputState {
    /// The mouse at the origin, every button up, nothing hovered, focused or selected.
    pub fn new() -> (r: InputState)
        ensures
            r@ == initial_model(),
    {
        InputState {
            mouse: Mouse { pos: Pos2 { x: 0, y: 0 }, drag_start: None, buttons: Buttons::new() },
            modifiers: Modifiers(0),
            intersections: Intersections { hit: Vec::new(), entered: Vec::new(), sunk: Vec::new() },
            focus: Notify { current: None, prev: None },
            selection: Notify { current: None, prev: None },
            key_press: None,
        }
    }

    /// End a frame: forget the key press and settle fresh button changes.
    pub fn end(&mut self)
        ensures
            final(self)@ == (InputModel {
                key_press: None,
                buttons: old(self)@.buttons.settled(),
                ..old(self)@
            }),
    {
        self.key_press = None;
        self.mouse.buttons.settle_all();
    }

    /// The key pressed during this frame, with its modifiers.
    pub fn key_press(&self) -> (r: Option<Keybind>)
        ensures
            r == self@.key_press,
    {
        self.key_press
    }

    /// The current mouse position.
    pub fn mouse_pos(&self) -> (r: Pos2)
        ensures
            r == self@.pos,
    {
        self.mouse.pos
    }

    /// The current mouse position.
    pub fn cursor_pos(&self) -> (r: Pos2)
        ensures
            r == self@.pos,
    {
        self.mouse.pos
    }

    /// The modifier keys last reported.
    pub fn modifiers(&self) -> (r: Modifiers)
        ensures
            r == self@.modifiers,
    {
        self.modifiers
    }

    /// The focused view.
    pub fn focus(&self) -> (r: Option<ViewId>)
        ensures
            r == self@.focus.current,
    {
        self.focus.get()
    }

    /// Focus a view, or none; the change is announced at the next frame.
    pub fn set_focus(&mut self, id: Option<ViewId>)
        ensures
            final(self)@ == (InputModel {
                focus: Notify { current: id, ..old(self)@.focus },
                ..old(self)@
            }),
    {
        self.focus.set(id);
    }

    /// The selected view.
    pub fn selection(&self) -> (r: Option<ViewId>)
        ensures
            r == self@.selection.current,
    {
        self.selection.get()
    }

    /// Select a view, or none; the change is announced at the next frame.
    pub fn set_selection(&mut self, id: Option<ViewId>)
        ensures
            final(self)@ == (InputModel {
                selection: Notify { current: id, ..old(self)@.selection },
                ..old(self)@
            }),
    {
        self.selection.set(id);
    }

    pub fn is_focused(&self, id: ViewId) -> (r: bool)
        ensures
            r == (self@.focus.current == Some(id)),
    {
        match self.focus.get() {
            Some(f) => f == id,
            None => false,
        }
    }

    /// Is the mouse over this view?
    pub fn is_hovered(&self, id: ViewId) -> (r: bool)
        ensures
            r == self@.hit.contains(id),
    {
        contains_id(&self.intersections.hit, id)
    }

    /// Forget a view that left the tree.
    pub fn remove(&mut self, id: ViewId)
        ensures
            final(self)@ == (InputModel {
                hit: without(old(self)@.hit, id),
                entered: without(old(self)@.entered, id),
                sunk: without(old(self)@.sunk, id),
                ..old(self)@
            }),
    {
        let hit = without_id(&self.intersections.hit, id);
        let entered = without_id(&self.intersections.entered, id);
        let sunk = without_id(&self.intersections.sunk, id);
        self.intersections = Intersections { hit, entered, sunk };
    }

    /// Record that `button` went down (or up). True when the change should be
    /// announced to the views: always for a press, and for a release that
    /// does not end a drag.
    pub fn mouse_button_changed(&mut self, button: MouseButton, down: bool) -> (r: bool)
        ensures
            final(self)@ == (InputModel {
                buttons: old(self)@.buttons.with(button, pressed(old(self)@.buttons.state(button), down)),
                drag_start: if down { old(self)@.drag_start } else { None },
                ..old(self)@
            }),
            r == (down || old(self)@.drag_start is None),
    {
        let state = self.mouse.buttons.get(button);
        let next = if !state.is_down() && down {
            ButtonState::JustDown
        } else if state.is_down() && !down {
            ButtonState::JustUp
        } else {
            state
        };
        self.mouse.buttons.set(button, next);
        if !down {
            let was = self.mouse.drag_start;
            self.mouse.drag_start = None;
            return was.is_none();
        }
        true
    }
}

/// `after` is `before` with more deliveries appended.
pub open spec fn grew(before: Seq<Delivery>, after: Seq<Delivery>) -> bool {
    before.len() <= after.len() && after.take(before.len() as int) == before
}

/// The deliveries appended to `before` to make `after`.
pub open spec fn new_part(before: Seq<Delivery>, after: Seq<Delivery>) -> Seq<Delivery> {
    after.skip(before.len() as int)
}

proof fn lemma_grew(start: Seq<Delivery>, a: Seq<Delivery>)
    ensures
        grew(start, start + a),
        new_part(start, start + a) == a,
{
    assert((start + a).take(start.len() as int) =~= start);
    assert((start + a).skip(start.len() as int) =~= a);
}

proof fn lemma_sent_push(a: Seq<Delivery>, ids: Seq<ViewId>, ev: ViewEvent, d: Delivery)
    requires
        sent(a, ids, ev),
        d.event == ev,
    ensures
        sent(a.push(d), ids.push(d.id), ev),
{
    assert forall|k: int| 0 <= k < a.len() + 1 implies (#[trigger] a.push(d)[k]).id == ids.push(
        d.id,
    )[k] && a.push(d)[k].event == ev by {
        if k < a.len() {
            assert(a.push(d)[k] == a[k]);
        }
    }
}

/// The interests of a layout in the order they are offered events.
pub open spec fn entries_of(layout: &LayoutNodes) -> Seq<(ViewId, Interest)> {
    interest_order(layout.interests().layers(), 0)
}

/// The ids of the entries whose interest has `bit`, in order.
pub fn ids_with_bit(entries: &Vec<(ViewId, Interest)>, bit: u8) -> (r: Vec<ViewId>)
    ensures
        r@ == ids_with(entries@, bit),
{
    let mut out: Vec<ViewId> = Vec::new();
    let mut i: usize = 0;
    while i < entries.len()
        invariant
            i <= entries@.len(),
            out@ == ids_with(entries@.take(i as int), bit),
        decreases entries@.len() - i,
    {
        assert(entries@.take(i as int + 1).drop_last() =~= entries@.take(i as int));
        let (id, interest) = entries[i];
        if interest.0 & bit != 0 {
            out.push(id);
        }
        i = i + 1;
    }
    assert(entries@.take(i as int) =~= entries@);
    out
}

/// The ids of the entries that want mouse events outside of them and are not in `hit`.
pub fn outside_of(entries: &Vec<(ViewId, Interest)>, hit: &Vec<ViewId>) -> (r: Vec<ViewId>)
    ensures
        r@ == outside_ids(entries@, hit@),
{
    let mut out: Vec<ViewId> = Vec::new();
    let mut i: usize = 0;
    while i < entries.len()
        invariant
            i <= entries@.len(),
            out@ == outside_ids(entries@.take(i as int), hit@),
        decreases entries@.len() - i,
    {
        assert(entries@.take(i as int + 1).drop_last() =~= entries@.take(i as int));
        let (id, interest) = entries[i];
        if interest.is_mouse_outside() && !contains_id(hit, id) {
            out.push(id);
        }
        i = i + 1;
    }
    assert(entries@.take(i as int) =~= entries@);
    out
}

/// What a view is told when a button changes over it (`inside`) or elsewhere.
pub open spec fn button_event(state: ButtonState, pos: Pos2, inside: bool, button: MouseButton, modifiers: Modifiers) -> ViewEvent {
    if state.spec_is_down() {
        ViewEvent::MouseHeld { pos, inside, button, modifiers }
    } else {
        ViewEvent::MouseClicked { pos, inside, button, modifiers }
    }
}

/// The deliveries of a mouse event: first offered to the views under the
/// mouse until one sinks it, then to every view that wants mouse events
/// outside of it and is not under the mouse. The answer is `Sink` when a
/// view under the mouse sank the event.
pub open spec fn inside_then_outside(
    s: InputModel,
    layout: &LayoutNodes,
    inside: ViewEvent,
    outside: ViewEvent,
    a: Seq<Delivery>,
    r: Handled,
) -> bool {
    exists|n: int|
        0 <= n <= a.len() && #[trigger] offered(a.take(n), s.hit, inside) && sent(
            a.skip(n),
            outside_ids(entries_of(layout), s.hit),
            outside,
        ) && (r == Handled::Sink <==> sunk_by(a.take(n)))
}

impl InputState {
    /// Hand `event` to `id`; a missing view lets it bubble.
    pub fn dispatch<T: ViewTree>(&self, d: &mut Dispatcher<T>, layout: &LayoutNodes, id: ViewId, event: ViewEvent) -> (r: Handled)
        ensures
            final(d).log() == old(d).log().push(Delivery { id, event, reply: final(d).log().last().reply }),
            r == answer(final(d).log().last()),
    {
        let reply = d.send(self, layout, id, event);
        match reply {
            Some(h) => h,
            None => Handled::Bubble,
        }
    }

    /// Hand `event` to each of `ids`, in order, until one sinks it.
    pub fn offer<T: ViewTree>(&self, d: &mut Dispatcher<T>, layout: &LayoutNodes, ids: &Vec<ViewId>, event: ViewEvent) -> (r: Handled)
        ensures
            grew(old(d).log(), final(d).log()),
            offered(new_part(old(d).log(), final(d).log()), ids@, event),
            r == Handled::Sink <==> sunk_by(new_part(old(d).log(), final(d).log())),
    {
        let ghost start = d.log();
        let ghost mut a: Seq<Delivery> = Seq::empty();
        let mut sank = false;
        let mut i: usize = 0;
        while i < ids.len() && !sank
            invariant
                i <= ids@.len(),
                d.log() == start + a,
                a.len() == i,
                sent(a, ids@.take(i as int), event),
                forall|k: int| 0 <= k < a.len() - 1 ==> answer(#[trigger] a[k]) == Handled::Bubble,
                sank <==> sunk_by(a),
            decreases ids@.len() - i,
        {
            let id = ids[i];
            let r = self.dispatch(d, layout, id, event);
            proof {
                let dl = d.log().last();
                lemma_sent_push(a, ids@.take(i as int), event, dl);
                assert(ids@.take(i as int).push(id) =~= ids@.take(i as int + 1));
                a = a.push(dl);
                assert(d.log() =~= start + a);
            }
            i = i + 1;
            sank = r.is_sink();
        }
        proof {
            lemma_grew(start, a);
        }
        if sank {
            Handled::Sink
        } else {
            Handled::Bubble
        }
    }

    /// Hand `event` to each of `ids`, in order.
    pub fn send_all<T: ViewTree>(&self, d: &mut Dispatcher<T>, layout: &LayoutNodes, ids: &Vec<ViewId>, event: ViewEvent)
        ensures
            grew(old(d).log(), final(d).log()),
            sent(new_part(old(d).log(), final(d).log()), ids@, event),
    {
        let ghost start = d.log();
        let ghost mut a: Seq<Delivery> = Seq::empty();
        let mut i: usize = 0;
        while i < ids.len()
            invariant
                i <= ids@.len(),
                d.log() == start + a,
                sent(a, ids@.take(i as int), event),
            decreases ids@.len() - i,
        {
            let id = ids[i];
            self.dispatch(d, layout, id, event);
            proof {
                let dl = d.log().last();
                lemma_sent_push(a, ids@.take(i as int), event, dl);
                assert(ids@.take(i as int).push(id) =~= ids@.take(i as int + 1));
                a = a.push(dl);
                assert(d.log() =~= start + a);
            }
            i = i + 1;
        }
        proof {
            assert(ids@.take(i as int) =~= ids@);
            lemma_grew(start, a);
        }
    }

    /// Tell every view that wants mouse moves where the mouse is.
    pub fn send_mouse_move<T: ViewTree>(&self, d: &mut Dispatcher<T>, layout: &LayoutNodes)
        ensures
            grew(old(d).log(), final(d).log()),
            sent(
                new_part(old(d).log(), final(d).log()),
                ids_with(entries_of(layout), mouse_move_bit()),
                ViewEvent::MouseMove { pos: self@.pos, modifiers: self@.modifiers },
            ),
    {
        let event = ViewEvent::MouseMove { pos: self.mouse.pos, modifiers: self.modifiers };
        let entries = layout.interest_list();
        let ids = ids_with_bit(&entries, 4);
        self.send_all(d, layout, &ids, event);
    }

    /// Offer a scroll to the views under the mouse until one sinks it.
    pub fn mouse_scrolled<T: ViewTree>(&self, d: &mut Dispatcher<T>, layout: &LayoutNodes, delta: Vec2) -> (r: Handled)
        ensures
            grew(old(d).log(), final(d).log()),
            offered(
                new_part(old(d).log(), final(d).log()),
                self@.hit,
                ViewEvent::MouseScroll { delta, modifiers: self@.modifiers },
            ),
            r == Handled::Sink <==> sunk_by(new_part(old(d).log(), final(d).log())),
    {
        let event = ViewEvent::MouseScroll { delta, modifiers: self.modifiers };
        self.offer(d, layout, &self.intersections.hit, event)
    }

    /// Offer `inside` to the views under the mouse, then send `outside` to
    /// the views that want mouse events outside of them.
    fn inside_outside<T: ViewTree>(&self, d: &mut Dispatcher<T>, layout: &LayoutNodes, inside: ViewEvent, outside: ViewEvent) -> (r: Handled)
        ensures
            grew(old(d).log(), final(d).log()),
            inside_then_outside(self@, layout, inside, outside, new_part(old(d).log(), final(d).log()), r),
    {
        let ghost l0 = d.log();
        let resp = self.offer(d, layout, &self.intersections.hit, inside);
        let ghost l1 = d.log();
        let entries = layout.interest_list();
        let ids = outside_of(&entries, &self.intersections.hit);
        self.send_all(d, layout, &ids, outside);
        proof {
            let l2 = d.log();
            let a1 = new_part(l0, l1);
            let a2 = new_part(l1, l2);
            assert(l1 =~= l0 + a1);
            assert(l2 =~= l1 + a2);
            assert(l2 =~= l0 + (a1 + a2));
            lemma_grew(l0, a1 + a2);
            let a = a1 + a2;
            assert(a.take(a1.len() as int) =~= a1);
            assert(a.skip(a1.len() as int) =~= a2);
            assert(offered(a.take(a1.len() as int), self@.hit, inside));
        }
        resp
    }

    /// Tell the views that the mouse was dragged by `delta` from `start`.
    pub fn send_mouse_drag<T: ViewTree>(&self, d: &mut Dispatcher<T>, layout: &LayoutNodes, start: Pos2, delta: Vec2, button: MouseButton) -> (r: Handled)
        ensures
            grew(old(d).log(), final(d).log()),
            inside_then_outside(
                self@,
                layout,
                ViewEvent::MouseDrag { start, current: self@.pos, delta, inside: true, modifiers: self@.modifiers, button },
                ViewEvent::MouseDrag { start, current: self@.pos, delta, inside: false, modifiers: self@.modifiers, button },
                new_part(old(d).log(), final(d).log()),
                r,
            ),
    {
        let inside = ViewEvent::MouseDrag {
            start,
            current: self.mouse.pos,
            delta,
            inside: true,
            modifiers: self.modifiers,
            button,
        };
        let outside = ViewEvent::MouseDrag {
            start,
            current: self.mouse.pos,
            delta,
            inside: false,
            modifiers: self.modifiers,
            button,
        };
        self.inside_outside(d, layout, inside, outside)
    }

    /// Tell the views that `button` is held (or was clicked).
    pub fn send_mouse_button_changed<T: ViewTree>(&self, d: &mut Dispatcher<T>, layout: &LayoutNodes, button: MouseButton) -> (r: Handled)
        ensures
            grew(old(d).log(), final(d).log()),
            inside_then_outside(
                self@,
                layout,
                button_event(self@.buttons.state(button), self@.pos, true, button, self@.modifiers),
                button_event(self@.buttons.state(button), self@.pos, false, button, self@.modifiers),
                new_part(old(d).log(), final(d).log()),
                r,
            ),
    {
        let state = self.mouse.buttons.get(button);
        let pos = self.mouse.pos;
        let modifiers = self.modifiers;
        let (inside, outside) = if state.is_down() {
            (
                ViewEvent::MouseHeld { pos, inside: true, button, modifiers },
                ViewEvent::MouseHeld { pos, inside: false, button, modifiers },
            )
        } else {
            (
                ViewEvent::MouseClicked { pos, inside: true, button, modifiers },
                ViewEvent::MouseClicked { pos, inside: false, button, modifiers },
            )
        };
        self.inside_outside(d, layout, inside, outside)
    }

    /// Hand a key press to the focused view, when it wants key input.
    pub fn update_key_event<T: ViewTree>(&self, d: &mut Dispatcher<T>, layout: &LayoutNodes, key: Key) -> (r: Handled)
        ensures
            key_post(self@, layout, key, new_part(old(d).log(), final(d).log()), r),
            grew(old(d).log(), final(d).log()),
    {
        let ghost start = d.log();
        proof {
            lemma_grew(start, Seq::empty());
            assert(start + Seq::<Delivery>::empty() =~= start);
        }
        let id = match self.focus.get() {
            Some(id) => id,
            None => return Handled::Bubble,
        };
        let node = match layout.get(id) {
            Some(node) => node,
            None => return Handled::Bubble,
        };
        if !node.interest.is_focus_input() {
            return Handled::Bubble;
        }
        let event = ViewEvent::KeyInput { key, modifiers: self.modifiers };
        let r = self.dispatch(d, layout, id, event);
        proof {
            let a = seq![d.log().last()];
            assert(d.log() =~= start + a);
            lemma_grew(start, a);
        }
        r
    }
}

/// The deliveries and answer of a key press: it goes to the focused view
/// when that view is laid out and wants key input, and bubbles otherwise.
pub open spec fn key_post(s: InputModel, layout: &LayoutNodes, key: Key, a: Seq<Delivery>, r: Handled) -> bool {
    match s.focus.current {
        Some(id) if layout.nodes().contains_key(id.0) && layout.nodes()[id.0].interest.has(focus_input_bit()) => {
            &&& sent(a, seq![id], ViewEvent::KeyInput { key, modifiers: s.modifiers })
            &&& r == answer(a[0])
        },
        _ => a.len() == 0 && r == Handled::Bubble,
    }
}

/// The deliveries and new state when the mouse entered views: each view
/// under the mouse, in order, is told so (and recorded as entered) until one
/// sinks the news, which records it as sunk, or until a view that was told
/// before and sank it then comes up again.
pub open spec fn enter_post(s0: InputModel, s1: InputModel, a: Seq<Delivery>) -> bool {
    let hit = s0.hit;
    let k = a.len();
    &&& k <= hit.len()
    &&& sent(a, hit.take(k as int), ViewEvent::MouseEntered)
    &&& forall|j: int| 0 <= j < k - 1 ==> answer(#[trigger] a[j]) == Handled::Bubble
    &&& forall|j: int|
        0 <= j < k ==> !(#[trigger] added(s0.entered, hit.take(j)).contains(hit[j]) && s0.sunk.contains(
            hit[j],
        ))
    &&& (k == hit.len() || sunk_by(a) || (added(s0.entered, hit.take(k as int)).contains(
        hit[k as int],
    ) && s0.sunk.contains(hit[k as int])))
    &&& s1 == InputModel {
        entered: added(s0.entered, hit.take(k as int)),
        sunk: if sunk_by(a) {
            s0.sunk.push(hit[k - 1])
        } else {
            s0.sunk
        },
        ..s0
    }
}

/// The deliveries and new state when the mouse left views: each entered
/// view that is no longer under the mouse is told so, in order, and is
/// forgotten as entered and as sunk.
pub open spec fn leave_post(s0: InputModel, s1: InputModel, a: Seq<Delivery>) -> bool {
    let inactive = not_in(s0.entered, s0.hit);
    &&& sent(a, inactive, ViewEvent::MouseLeave)
    &&& s1 == InputModel {
        entered: not_in(s0.entered, inactive),
        sunk: not_in(s0.sunk, inactive),
        ..s0
    }
}

/// The deliveries and new state when the mouse moved to `pos`: the views
/// that want mouse moves are told, the views under the mouse are found
/// again, then told that the mouse entered them, then the views it left are
/// told so.
pub open spec fn moved_post(s0: InputModel, s1: InputModel, layout: &LayoutNodes, pos: Pos2, a: Seq<Delivery>) -> bool {
    let m1 = InputModel { pos, ..s0 };
    let moves = ids_with(entries_of(layout), mouse_move_bit());
    let m2 = InputModel { hit: hits(entries_of(layout), layout.nodes(), pos), ..m1 };
    let n1 = moves.len() as int;
    exists|n2: int, m3: InputModel|
        n1 <= n2 <= a.len() && sent(a.take(n1), moves, ViewEvent::MouseMove { pos, modifiers: s0.modifiers })
            && #[trigger] enter_post(m2, m3, a.subrange(n1, n2)) && leave_post(m3, s1, a.skip(n2))
}

/// The views of `layout` visible under `pos`, in the order they are offered events.
pub fn hit_test(pos: Pos2, layout: &LayoutNodes) -> (r: Vec<ViewId>)
    requires
        clips_resolve(layout.nodes()),
    ensures
        r@ == hits(entries_of(layout), layout.nodes(), pos),
{
    let entries = layout.interest_list();
    let ghost nodes = layout.nodes();
    let mut out: Vec<ViewId> = Vec::new();
    let mut i: usize = 0;
    while i < entries.len()
        invariant
            i <= entries@.len(),
            entries@ == entries_of(layout),
            nodes == layout.nodes(),
            clips_resolve(nodes),
            out@ == hits(entries@.take(i as int), nodes, pos),
        decreases entries@.len() - i,
    {
        assert(entries@.take(i as int + 1).drop_last() =~= entries@.take(i as int));
        let id = entries[i].0;
        match layout.get(id) {
            None => {},
            Some(first) => {
                let ghost start: LayoutNode = *first;
                assert(visible_rect(nodes, nodes[id.0]).is_some());
                let mut node: LayoutNode = *first;
                let mut rect: Rect = first.rect;
                let mut fuel: usize = usize::MAX;
                let mut done = false;
                while !done
                    invariant
                        nodes == layout.nodes(),
                        start == nodes[id.0],
                        nodes.contains_key(id.0),
                        visible_rect(nodes, start).is_some(),
                        clip_walk(nodes, node, rect, fuel as nat) == visible_rect(nodes, start),
                        done ==> node.clipped_by is None,
                    decreases fuel, (if done { 0int } else { 1int }),
                {
                    match node.clipped_by {
                        None => {
                            done = true;
                        },
                        Some(parent) => {
                            match layout.get(parent) {
                                Some(p) => {
                                    node = *p;
                                    rect = rect.intersection(p.rect);
                                    fuel = fuel - 1;
                                },
                                None => {
                                    done = true;
                                    proof {
                                        assert(false);
                                    }
                                },
                            }
                        },
                    }
                }
                if rect.contains(pos) {
                    out.push(id);
                }
            },
        }
        i = i + 1;
    }
    assert(entries@.take(i as int) =~= entries@);
    out
}

proof fn lemma_added_step(e: Seq<ViewId>, hit: Seq<ViewId>, i: int)
    requires
        0 <= i < hit.len(),
    ensures
        added(e, hit.take(i + 1)) == (if added(e, hit.take(i)).contains(hit[i]) {
            added(e, hit.take(i))
        } else {
            added(e, hit.take(i)).push(hit[i])
        }),
{
    assert(hit.take(i + 1).drop_last() =~= hit.take(i));
}

impl InputState {
    /// Find the views under the mouse again.
    pub fn mouse_hit_test(&mut self, layout: &LayoutNodes)
        requires
            clips_resolve(layout.nodes()),
        ensures
            final(self)@ == (InputModel {
                hit: hits(entries_of(layout), layout.nodes(), old(self)@.pos),
                ..old(self)@
            }),
    {
        let hit = hit_test(self.mouse.pos, layout);
        self.intersections.hit = hit;
    }

    /// Tell the views under the mouse that it entered them.
    pub fn send_mouse_enter<T: ViewTree>(&mut self, d: &mut Dispatcher<T>, layout: &LayoutNodes)
        ensures
            grew(old(d).log(), final(d).log()),
            enter_post(old(self)@, final(self)@, new_part(old(d).log(), final(d).log())),
    {
        let ghost start = d.log();
        let ghost s0 = self@;
        let ghost mut a: Seq<Delivery> = Seq::empty();
        let n = self.intersections.hit.len();
        let mut i: usize = 0;
        let mut stopped = false;
        let mut sank = false;
        while i < n && !stopped && !sank
            invariant
                n == s0.hit.len(),
                i <= n,
                self@ == (InputModel {
                    entered: added(s0.entered, s0.hit.take(i as int)),
                    sunk: if sank {
                        s0.sunk.push(s0.hit[i - 1])
                    } else {
                        s0.sunk
                    },
                    ..s0
                }),
                d.log() == start + a,
                a.len() == i,
                sent(a, s0.hit.take(i as int), ViewEvent::MouseEntered),
                forall|j: int| 0 <= j < a.len() - 1 ==> answer(#[trigger] a[j]) == Handled::Bubble,
                sank <==> sunk_by(a),
                forall|j: int|
                    0 <= j < i ==> !(#[trigger] added(s0.entered, s0.hit.take(j)).contains(s0.hit[j])
                        && s0.sunk.contains(s0.hit[j])),
                stopped ==> !sank && i < n && added(s0.entered, s0.hit.take(i as int)).contains(
                    s0.hit[i as int],
                ) && s0.sunk.contains(s0.hit[i as int]),
            decreases n - i, (if stopped { 0int } else { 1int }),
        {
            let h = self.intersections.hit[i];
            let already = contains_id(&self.intersections.entered, h);
            if already && contains_id(&self.intersections.sunk, h) {
                stopped = true;
            } else {
                proof {
                    lemma_added_step(s0.entered, s0.hit, i as int);
                }
                if !already {
                    self.intersections.entered.push(h);
                }
                let r = self.dispatch(d, layout, h, ViewEvent::MouseEntered);
                proof {
                    let dl = d.log().last();
                    lemma_sent_push(a, s0.hit.take(i as int), ViewEvent::MouseEntered, dl);
                    assert(s0.hit.take(i as int).push(h) =~= s0.hit.take(i as int + 1));
                    a = a.push(dl);
                    assert(d.log() =~= start + a);
                }
                i = i + 1;
                if r.is_sink() {
                    self.intersections.sunk.push(h);
                    sank = true;
                }
            }
        }
        proof {
            lemma_grew(start, a);
        }
    }

    /// Tell the entered views that the mouse left them, and forget them.
    pub fn send_mouse_leave<T: ViewTree>(&mut self, d: &mut Dispatcher<T>, layout: &LayoutNodes)
        ensures
            grew(old(d).log(), final(d).log()),
            leave_post(old(self)@, final(self)@, new_part(old(d).log(), final(d).log())),
    {
        let inactive = not_in_ids(&self.intersections.entered, &self.intersections.hit);
        self.send_all(d, layout, &inactive, ViewEvent::MouseLeave);
        let entered = not_in_ids(&self.intersections.entered, &inactive);
        let sunk = not_in_ids(&self.intersections.sunk, &inactive);
        self.intersections.entered = entered;
        self.intersections.sunk = sunk;
    }

    /// The mouse moved to `pos`.
    pub fn mouse_moved<T: ViewTree>(&mut self, d: &mut Dispatcher<T>, layout: &LayoutNodes, pos: Pos2) -> (r: Handled)
        requires
            clips_resolve(layout.nodes()),
        ensures
            grew(old(d).log(), final(d).log()),
            moved_post(old(self)@, final(self)@, layout, pos, new_part(old(d).log(), final(d).log())),
            r == Handled::Bubble,
    {
        let ghost l0 = d.log();
        self.mouse.pos = pos;
        self.send_mouse_move(d, layout);
        let ghost l1 = d.log();
        self.mouse_hit_test(layout);
        let ghost m2 = self@;
        self.send_mouse_enter(d, layout);
        let ghost l2 = d.log();
        let ghost m3 = self@;
        self.send_mouse_leave(d, layout);
        proof {
            let l3 = d.log();
            let a1 = new_part(l0, l1);
            let a2 = new_part(l1, l2);
            let a3 = new_part(l2, l3);
            assert(l1 =~= l0 + a1);
            assert(l2 =~= l1 + a2);
            assert(l3 =~= l2 + a3);
            let a = a1 + a2 + a3;
            assert(l3 =~= l0 + a);
            lemma_grew(l0, a);
            let n1 = a1.len() as int;
            let n2 = (a1.len() + a2.len()) as int;
            assert(a.take(n1) =~= a1);
            assert(a.subrange(n1, n2) =~= a2);
            assert(a.skip(n2) =~= a3);
            assert(enter_post(m2, m3, a.subrange(n1, n2)));
        }
        Handled::Bubble
    }
}

/// The deliveries and new state when the focus change is announced.
///
/// Nothing happens when the focus did not change since the last
/// announcement. Otherwise the newly focused view is told it gained the
/// focus (when that view does not exist, the focus is dropped), then the
/// previously focused view is told it lost it, and the focus is recorded as
/// announced.
pub open spec fn focus_post(s0: InputModel, s1: InputModel, a: Seq<Delivery>) -> bool {
    let cur = s0.focus.current;
    let prev = s0.focus.prev;
    if cur == prev {
        a.len() == 0 && s1 == s0
    } else {
        let ng: int = if cur is Some {
            1
        } else {
            0
        };
        let kept = if cur is Some && a[0].reply is None {
            None
        } else {
            cur
        };
        &&& a.len() == ng + (if prev is Some {
            1int
        } else {
            0int
        })
        &&& (cur matches Some(e) ==> a[0].id == e && a[0].event == ViewEvent::FocusGained)
        &&& (prev matches Some(l) ==> a[ng].id == l && a[ng].event == ViewEvent::FocusLost)
        &&& s1 == InputModel { focus: Notify { current: kept, prev: kept }, ..s0 }
    }
}

/// Some delivery found no view.
pub open spec fn any_missing(a: Seq<Delivery>) -> bool {
    exists|j: int| 0 <= j < a.len() && (#[trigger] a[j]).reply is None
}

/// The deliveries and new state when the selection change is announced.
///
/// Nothing happens when the selection did not change since the last
/// announcement. Otherwise the views that want selection changes are told,
/// in order until one sinks it, that the new selection was added (when one
/// of them does not exist, the selection is dropped); then, in order until
/// one sinks it, that the previous selection was removed; and the selection
/// is recorded as announced.
pub open spec fn selection_post(s0: InputModel, s1: InputModel, layout: &LayoutNodes, a: Seq<Delivery>) -> bool {
    let cur = s0.selection.current;
    let prev = s0.selection.prev;
    let ids = ids_with(entries_of(layout), selection_change_bit());
    if cur == prev {
        a.len() == 0 && s1 == s0
    } else {
        exists|n: int|
            #![trigger a.take(n)]
            0 <= n <= a.len() && (cur is None ==> n == 0) && (prev is None ==> n == a.len()) && (
            cur matches Some(e) ==> offered(a.take(n), ids, ViewEvent::SelectionAdded(e)))
                && (prev matches Some(l) ==> offered(a.skip(n), ids, ViewEvent::SelectionRemoved(l)))
                && s1 == (InputModel {
                selection: Notify {
                    current: if any_missing(a.take(n)) {
                        None
                    } else {
                        cur
                    },
                    prev: if any_missing(a.take(n)) {
                        None
                    } else {
                        cur
                    },
                },
                ..s0
            })
    }
}

/// The deliveries and new state at the start of a frame: the focus change
/// is announced, then the selection change.
pub open spec fn begin_post(s0: InputModel, s1: InputModel, layout: &LayoutNodes, a: Seq<Delivery>) -> bool {
    exists|n: int, m: InputModel|
        0 <= n <= a.len() && #[trigger] focus_post(s0, m, a.take(n)) && selection_post(m, s1, layout, a.skip(n))
}

impl InputState {
    /// Announce a change of focus to the views concerned.
    pub fn notify_focus<T: ViewTree>(&mut self, d: &mut Dispatcher<T>, layout: &LayoutNodes)
        ensures
            grew(old(d).log(), final(d).log()),
            focus_post(old(self)@, final(self)@, new_part(old(d).log(), final(d).log())),
    {
        let ghost start = d.log();
        let ghost s0 = self@;
        let mut current = self.focus.get();
        let previous = self.focus.prev;
        let same = match (current, previous) {
            (Some(a), Some(b)) => a == b,
            (None, None) => true,
            _ => false,
        };
        if same {
            proof {
                assert(start + Seq::<Delivery>::empty() =~= start);
                lemma_grew(start, Seq::empty());
            }
            return;
        }
        if let Some(entered) = current {
            let reply = d.send(self, layout, entered, ViewEvent::FocusGained);
            if reply.is_none() {
                self.focus.set(None);
                current = None;
            }
        }
        let ghost l1 = d.log();
        if let Some(left) = previous {
            self.dispatch(d, layout, left, ViewEvent::FocusLost);
        }
        self.focus.prev = current;
        proof {
            let a = new_part(start, d.log());
            assert(l1 =~= start + new_part(start, l1));
            assert(d.log() =~= l1 + new_part(l1, d.log()));
            assert(d.log() =~= start + (new_part(start, l1) + new_part(l1, d.log())));
            lemma_grew(start, new_part(start, l1) + new_part(l1, d.log()));
            assert(a =~= new_part(start, l1) + new_part(l1, d.log()));
        }
    }

    /// Announce a change of selection to the views concerned.
    pub fn notify_selection<T: ViewTree>(&mut self, d: &mut Dispatcher<T>, layout: &LayoutNodes)
        ensures
            grew(old(d).log(), final(d).log()),
            selection_post(old(self)@, final(self)@, layout, new_part(old(d).log(), final(d).log())),
    {
        let ghost start = d.log();
        let ghost s0 = self@;
        let mut current = self.selection.get();
        let previous = self.selection.prev;
        let same = match (current, previous) {
            (Some(a), Some(b)) => a == b,
            (None, None) => true,
            _ => false,
        };
        if same {
            proof {
                assert(start + Seq::<Delivery>::empty() =~= start);
                lemma_grew(start, Seq::empty());
            }
            return;
        }
        let entries = layout.interest_list();
        let ids = ids_with_bit(&entries, 32);
        let ghost mut a: Seq<Delivery> = Seq::empty();
        if let Some(entered) = current {
            let event = ViewEvent::SelectionAdded(entered);
            let mut sank = false;
            let mut i: usize = 0;
            while i < ids.len() && !sank
                invariant
                    i <= ids@.len(),
                    ids@ == ids_with(entries_of(layout), selection_change_bit()),
                    d.log() == start + a,
                    a.len() == i,
                    sent(a, ids@.take(i as int), event),
                    forall|k: int| 0 <= k < a.len() - 1 ==> answer(#[trigger] a[k]) == Handled::Bubble,
                    sank <==> sunk_by(a),
                    current == (if any_missing(a) {
                        None
                    } else {
                        Some(entered)
                    }),
                    self@ == (InputModel {
                        selection: Notify { current, prev: s0.selection.prev },
                        ..s0
                    }),
                decreases ids@.len() - i,
            {
                let id = ids[i];
                let reply = d.send(self, layout, id, event);
                proof {
                    let dl = d.log().last();
                    lemma_sent_push(a, ids@.take(i as int), event, dl);
                    assert(ids@.take(i as int).push(id) =~= ids@.take(i as int + 1));
                    assert(any_missing(a.push(dl)) == (any_missing(a) || dl.reply is None)) by {
                        if dl.reply is None {
                            assert(a.push(dl)[a.len() as int] == dl);
                        }
                        if any_missing(a) {
                            let j = choose|j: int| 0 <= j < a.len() && (#[trigger] a[j]).reply is None;
                            assert(a.push(dl)[j] == a[j]);
                        }
                        if any_missing(a.push(dl)) {
                            let j = choose|j: int| 0 <= j < a.push(dl).len() && (#[trigger] a.push(dl)[j]).reply is None;
                            if j < a.len() {
                                assert(a.push(dl)[j] == a[j]);
                            }
                        }
                    }
                    a = a.push(dl);
                    assert(d.log() =~= start + a);
                }
                i = i + 1;
                match reply {
                    Some(Handled::Sink) => {
                        sank = true;
                    },
                    Some(Handled::Bubble) => {},
                    None => {
                        self.selection.set(None);
                        current = None;
                    },
                }
            }
        }
        let ghost a1 = a;
        let ghost l1 = d.log();
        assert(l1 == start + a1);
        proof {
            if current == s0.selection.current {
                assert(!any_missing(a1) || s0.selection.current is None);
            }
        }
        if let Some(left) = previous {
            let ids2 = ids_with_bit(&entries, 32);
            self.offer(d, layout, &ids2, ViewEvent::SelectionRemoved(left));
        }
        self.selection.prev = current;
        proof {
            let a2 = new_part(l1, d.log());
            assert(d.log() =~= l1 + a2);
            let all = a1 + a2;
            assert(d.log() =~= start + all);
            lemma_grew(start, all);
            assert(all.take(a1.len() as int) =~= a1);
            assert(all.skip(a1.len() as int) =~= a2);
            if s0.selection.current is None {
                assert(a1 =~= Seq::<Delivery>::empty());
                assert(!any_missing(a1));
            }
            if previous is None {
                assert(a2 =~= Seq::<Delivery>::empty());
            }
            let n = a1.len() as int;
            if s0.selection.current is Some {
                assert(offered(all.take(n), ids_with(entries_of(layout), selection_change_bit()), ViewEvent::SelectionAdded(s0.selection.current->0)));
            }
        }
    }

    /// Start a frame: announce focus and selection changes.
    pub fn begin<T: ViewTree>(&mut self, d: &mut Dispatcher<T>, layout: &LayoutNodes)
        ensures
            grew(old(d).log(), final(d).log()),
            begin_post(old(self)@, final(self)@, layout, new_part(old(d).log(), final(d).log())),
    {
        let ghost l0 = d.log();
        self.notify_focus(d, layout);
        let ghost l1 = d.log();
        let ghost m = self@;
        self.notify_selection(d, layout);
        proof {
            let a1 = new_part(l0, l1);
            let a2 = new_part(l1, d.log());
            assert(l1 =~= l0 + a1);
            assert(d.log() =~= l1 + a2);
            let a = a1 + a2;
            assert(d.log() =~= l0 + a);
            lemma_grew(l0, a);
            assert(a.take(a1.len() as int) =~= a1);
            assert(a.skip(a1.len() as int) =~= a2);
            assert(focus_post(old(self)@, m, a.take(a1.len() as int)));
        }
    }
}

/// The state with the modifiers an event carries, if it carries them.
pub open spec fn with_modifiers(s: InputModel, event: Event) -> InputModel {
    match event.spec_modifiers() {
        Some(m) => InputModel { modifiers: m, ..s },
        None => s,
    }
}

/// The state after the backend reported `button` down (or up) at `pos`.
pub open spec fn button_model(s: InputModel, pos: Pos2, button: MouseButton, down: bool) -> InputModel {
    let p = InputModel { pos, ..s };
    InputModel {
        buttons: p.buttons.with(button, pressed(p.buttons.state(button), down)),
        drag_start: if down {
            p.drag_start
        } else {
            None
        },
        ..p
    }
}

/// The deliveries and new state after a button change was announced with
/// answer `r`: a primary press that no view sank drops the focus and the
/// selection and announces both changes.
pub open spec fn after_press(b: InputModel, s1: InputModel, layout: &LayoutNodes, button: MouseButton, down: bool, a: Seq<Delivery>, r: Handled) -> bool {
    if r == Handled::Bubble && button == MouseButton::Primary && down {
        let f = InputModel { focus: Notify { current: None, ..b.focus }, ..b };
        exists|n: int, m: InputModel|
            0 <= n <= a.len() && #[trigger] focus_post(f, m, a.take(n)) && selection_post(
                InputModel { selection: Notify { current: None, ..m.selection }, ..m },
                s1,
                layout,
                a.skip(n),
            )
    } else {
        a.len() == 0 && s1 == b
    }
}

/// The deliveries, new state and answer when the backend reports `event`.
pub open spec fn update_post(s0: InputModel, s1: InputModel, layout: &LayoutNodes, event: Event, a: Seq<Delivery>, r: Handled) -> bool {
    let s = with_modifiers(s0, event);
    match event {
        Event::KeyPressed { key, .. } => {
            let k = InputModel { key_press: Some(Keybind { key, modifiers: s.modifiers }), ..s };
            s1 == k && key_post(k, layout, key, a, r)
        },
        Event::MouseMove { pos } => moved_post(s, s1, layout, pos, a) && r == Handled::Bubble,
        Event::MouseButtonChanged { pos, button, down, .. } => {
            let b = button_model(s, pos, button, down);
            if !(down || s.drag_start is None) {
                s1 == b && a.len() == 0 && r == Handled::Bubble
            } else {
                exists|n: int|
                    0 <= n <= a.len() && #[trigger] inside_then_outside(
                        b,
                        layout,
                        button_event(b.buttons.state(button), pos, true, button, b.modifiers),
                        button_event(b.buttons.state(button), pos, false, button, b.modifiers),
                        a.take(n),
                        r,
                    ) && after_press(b, s1, layout, button, down, a.skip(n), r)
            }
        },
        Event::MouseDrag { pos, button, .. } => {
            let start = match s.drag_start {
                Some(p) => p,
                None => pos,
            };
            let dr = InputModel { pos, drag_start: Some(start), ..s };
            let delta = Vec2 { x: (pos.x - s.pos.x) as i32, y: (pos.y - s.pos.y) as i32 };
            s1 == dr && if s.pos == pos {
                a.len() == 0 && r == Handled::Bubble
            } else {
                inside_then_outside(
                    dr,
                    layout,
                    ViewEvent::MouseDrag { start, current: pos, delta, inside: true, modifiers: dr.modifiers, button },
                    ViewEvent::MouseDrag { start, current: pos, delta, inside: false, modifiers: dr.modifiers, button },
                    a,
                    r,
                )
            }
        },
        Event::MouseScroll { delta, .. } => {
            &&& s1 == s
            &&& offered(a, s.hit, ViewEvent::MouseScroll { delta, modifiers: s.modifiers })
            &&& (r == Handled::Sink <==> sunk_by(a))
        },
        _ => s1 == s && a.len() == 0 && r == Handled::Bubble,
    }
}

/// What `update` needs of the layout and of the state for `event`: a mouse
/// move needs the clipping chains to end, a drag needs the move to fit in `i32`.
pub open spec fn update_ready(s: InputModel, layout: &LayoutNodes, event: Event) -> bool {
    match event {
        Event::MouseMove { .. } => clips_resolve(layout.nodes()),
        Event::MouseDrag { pos, .. } => pos.can_sub(s.pos),
        _ => true,
    }
}

impl InputState {
    /// Take in an event from the backend and hand what it means to the views.
    #[verifier::rlimit(30)]
    pub fn update<T: ViewTree>(&mut self, d: &mut Dispatcher<T>, layout: &LayoutNodes, event: &Event) -> (r: Handled)
        requires
            update_ready(old(self)@, layout, *event),
        ensures
            grew(old(d).log(), final(d).log()),
            update_post(old(self)@, final(self)@, layout, *event, new_part(old(d).log(), final(d).log()), r),
    {
        let ghost l0 = d.log();
        proof {
            assert(l0 + Seq::<Delivery>::empty() =~= l0);
            lemma_grew(l0, Seq::empty());
        }
        if let Some(m) = event.modifiers() {
            self.modifiers = m;
        }
        match *event {
            Event::KeyPressed { key, .. } => {
                self.key_press = Some(Keybind::new(key, self.modifiers));
                self.update_key_event(d, layout, key)
            },
            Event::MouseMove { pos } => self.mouse_moved(d, layout, pos),
            Event::MouseButtonChanged { pos, button, down, .. } => {
                self.mouse.pos = pos;
                if self.mouse_button_changed(button, down) {
                    let ghost b = self@;
                    let resp = self.send_mouse_button_changed(d, layout, button);
                    let ghost l1 = d.log();
                    let primary = match button {
                        MouseButton::Primary => true,
                        _ => false,
                    };
                    if resp.is_bubble() && primary && down {
                        self.set_focus(None);
                        let ghost f = self@;
                        self.notify_focus(d, layout);
                        let ghost l2 = d.log();
                        let ghost m = self@;
                        self.set_selection(None);
                        self.notify_selection(d, layout);
                        proof {
                            let a1 = new_part(l0, l1);
                            let a2 = new_part(l1, l2);
                            let a3 = new_part(l2, d.log());
                            assert(l1 =~= l0 + a1);
                            assert(l2 =~= l1 + a2);
                            assert(d.log() =~= l2 + a3);
                            let a = a1 + (a2 + a3);
                            assert(d.log() =~= l0 + a);
                            lemma_grew(l0, a);
                            assert(a.take(a1.len() as int) =~= a1);
                            assert(a.skip(a1.len() as int) =~= a2 + a3);
                            assert((a2 + a3).take(a2.len() as int) =~= a2);
                            assert((a2 + a3).skip(a2.len() as int) =~= a3);
                            assert(focus_post(f, m, (a2 + a3).take(a2.len() as int)));
                            assert(after_press(b, self@, layout, button, down, a.skip(a1.len() as int), resp));
                            assert(inside_then_outside(
                                b,
                                layout,
                                button_event(b.buttons.state(button), pos, true, button, b.modifiers),
                                button_event(b.buttons.state(button), pos, false, button, b.modifiers),
                                a.take(a1.len() as int),
                                resp,
                            ));
                        }
                    } else {
                        proof {
                            let a1 = new_part(l0, l1);
                            assert(l1 =~= l0 + a1);
                            lemma_grew(l0, a1);
                            assert(a1.take(a1.len() as int) =~= a1);
                            assert(a1.skip(a1.len() as int) =~= Seq::<Delivery>::empty());
                            assert(after_press(b, self@, layout, button, down, a1.skip(a1.len() as int), resp));
                            assert(inside_then_outside(
                                b,
                                layout,
                                button_event(b.buttons.state(button), pos, true, button, b.modifiers),
                                button_event(b.buttons.state(button), pos, false, button, b.modifiers),
                                a1.take(a1.len() as int),
                                resp,
                            ));
                        }
                    }
                    return resp;
                }
                Handled::Bubble
            },
            Event::MouseDrag { pos, button, .. } => {
                let previous = self.mouse.pos;
                self.mouse.pos = pos;
                let start = match self.mouse.drag_start {
                    Some(p) => p,
                    None => {
                        self.mouse.drag_start = Some(pos);
                        pos
                    },
                };
                if previous == pos {
                    return Handled::Bubble;
                }
                let delta = pos.sub(previous).to_vec2();
                self.send_mouse_drag(d, layout, start, delta, button)
            },
            Event::MouseScroll { delta, .. } => self.mouse_scrolled(d, layout, delta),
            _ => Handled::Bubble,
        }
    }
}

/// An element is kept by `not_in` exactly when it is in `s` and not in `t`.
pub proof fn lemma_not_in_contains(s: Seq<ViewId>, t: Seq<ViewId>, x: ViewId)
    ensures
        not_in(s, t).contains(x) <==> (s.contains(x) && !t.contains(x)),
    decreases s.len(),
{
    if s.len() > 0 {
        lemma_not_in_contains(s.drop_last(), t, x);
        let r = not_in(s.drop_last(), t);
        if s.drop_last().contains(x) {
            let j = choose|j: int| 0 <= j < s.drop_last().len() && s.drop_last()[j] == x;
            assert(s[j] == x);
        }
        if s.contains(x) && s.last() != x {
            let j = choose|j: int| 0 <= j < s.len() && s[j] == x;
            assert(s.drop_last()[j] == x);
        }
        if !t.contains(s.last()) {
            assert(r.push(s.last())[r.len() as int] == s.last());
            if r.contains(x) {
                let j = choose|j: int| 0 <= j < r.len() && r[j] == x;
                assert(r.push(s.last())[j] == x);
            }
            if r.push(s.last()).contains(x) && x != s.last() {
                let j = choose|j: int| 0 <= j < r.push(s.last()).len() && r.push(s.last())[j] == x;
                assert(r[j] == x);
            }
        }
    }
}

/// `without` drops exactly the given element.
pub proof fn lemma_without_contains(s: Seq<ViewId>, id: ViewId, x: ViewId)
    ensures
        without(s, id).contains(x) <==> (s.contains(x) && x != id),
    decreases s.len(),
{
    if s.len() > 0 {
        lemma_without_contains(s.drop_last(), id, x);
        let r = without(s.drop_last(), id);
        if s.drop_last().contains(x) {
            let j = choose|j: int| 0 <= j < s.drop_last().len() && s.drop_last()[j] == x;
            assert(s[j] == x);
        }
        if s.contains(x) && s.last() != x {
            let j = choose|j: int| 0 <= j < s.len() && s[j] == x;
            assert(s.drop_last()[j] == x);
        }
        if s.last() != id {
            assert(r.push(s.last())[r.len() as int] == s.last());
            if r.contains(x) {
                let j = choose|j: int| 0 <= j < r.len() && r[j] == x;
                assert(r.push(s.last())[j] == x);
            }
            if r.push(s.last()).contains(x) && x != s.last() {
                let j = choose|j: int| 0 <= j < r.push(s.last()).len() && r.push(s.last())[j] == x;
                assert(r[j] == x);
            }
        }
    }
}

/// After the mouse moved, every view that was told the mouse entered it
/// (and not yet that it left) is under the mouse.
pub proof fn lemma_entered_are_hovered(
    s0: InputModel,
    s1: InputModel,
    layout: &LayoutNodes,
    pos: Pos2,
    a: Seq<Delivery>,
    x: ViewId,
)
    requires
        moved_post(s0, s1, layout, pos, a),
        s1.entered.contains(x),
    ensures
        s1.hit.contains(x),
{
    let moves = ids_with(entries_of(layout), mouse_move_bit());
    let m2 = InputModel { hit: hits(entries_of(layout), layout.nodes(), pos), ..InputModel { pos, ..s0 } };
    let n1 = moves.len() as int;
    let (n2, m3) = choose|n2: int, m3: InputModel|
        n1 <= n2 <= a.len() && sent(a.take(n1), moves, ViewEvent::MouseMove { pos, modifiers: s0.modifiers })
            && #[trigger] enter_post(m2, m3, a.subrange(n1, n2)) && leave_post(m3, s1, a.skip(n2));
    let inactive = not_in(m3.entered, m3.hit);
    lemma_not_in_contains(m3.entered, inactive, x);
    lemma_not_in_contains(m3.entered, m3.hit, x);
}

/// A view forgotten by the input state is neither under the mouse, nor
/// entered, nor sunk.
pub proof fn lemma_removed_is_forgotten(s: InputModel, id: ViewId)
    ensures
        !without(s.hit, id).contains(id),
        !without(s.entered, id).contains(id),
        !without(s.sunk, id).contains(id),
{
    lemma_without_contains(s.hit, id, id);
    lemma_without_contains(s.entered, id, id);
    lemma_without_contains(s.sunk, id, id);
}

/// A focus change is announced once: after the announcement, announcing
/// again hands out nothing and changes nothing.
pub proof fn lemma_focus_announced_once(s0: InputModel, s1: InputModel, s2: InputModel, a: Seq<Delivery>, b: Seq<Delivery>)
    requires
        focus_post(s0, s1, a),
        focus_post(s1, s2, b),
    ensures
        s1.focus.current == s1.focus.prev,
        b.len() == 0,
        s2 == s1,
{
}

/// A selection change is announced once: after the announcement, announcing
/// again hands out nothing and changes nothing.
pub proof fn lemma_selection_announced_once(
    s0: InputModel,
    s1: InputModel,
    s2: InputModel,
    layout: &LayoutNodes,
    a: Seq<Delivery>,
    b: Seq<Delivery>,
)
    requires
        selection_post(s0, s1, layout, a),
        selection_post(s1, s2, layout, b),
    ensures
        s1.selection.current == s1.selection.prev,
        b.len() == 0,
        s2 == s1,
{
}

/// A key press is handed to no view but the focused one, and only once.
pub proof fn lemma_keys_go_to_focus(s: InputModel, layout: &LayoutNodes, key: Key, a: Seq<Delivery>, r: Handled)
    requires
        key_post(s, layout, key, a, r),
    ensures
        a.len() <= 1,
        a.len() == 1 ==> s.focus.current == Some(a[0].id),
{
}

/// A mouse event offered to the views under the mouse reaches no view after
/// the one that sank it, and is sunk exactly when the last view reached sank it.
pub proof fn lemma_offer_stops_at_sink(a: Seq<Delivery>, ids: Seq<ViewId>, ev: ViewEvent, k: int)
    requires
        offered(a, ids, ev),
        0 <= k < a.len(),
        answer(a[k]) == Handled::Sink,
    ensures
        k == a.len() - 1,
        sunk_by(a),
{
}

/// At the end of a frame no button is freshly pressed or released.
pub proof fn lemma_end_settles(b: Buttons, button: MouseButton)
    ensures
        b.settled().state(button) != ButtonState::JustDown,
        b.settled().state(button) != ButtonState::JustUp,
        b.settled().state(button).spec_is_down() == b.state(button).spec_is_down(),
{
}

} // verus!
