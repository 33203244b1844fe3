use too::geom::{Pos2, Vec2};
use too::input::{ButtonState, Handled, ViewEvent, ViewId};
use too::input_state::{Dispatcher, InputState, ViewTree};
use too::interest::Interest;
use too::keys::{Event, Key, Keybind, Modifiers, MouseButton};
use too::layout::LayoutNodes;
use too::state::State;
use too::style::Palette;
use too::test_input::TestInput;

/// Views that answer `Sink` when listed in `sinks`, `Bubble` when merely
/// known, and do not exist otherwise; every delivery is recorded.
struct Views {
    known: Vec<u64>,
    sinks: Vec<u64>,
    log: Vec<(ViewId, ViewEvent)>,
}

impl ViewTree for Views {
    fn deliver(&mut self, _input: &InputState, _layout: &LayoutNodes, id: ViewId, event: ViewEvent) -> Option<Handled> {
        self.log.push((id, event));
        if !self.known.contains(&id.0) {
            return None;
        }
        if self.sinks.contains(&id.0) {
            Some(Handled::Sink)
        } else {
            Some(Handled::Bubble)
        }
    }
}

const ROOT: ViewId = ViewId(1);
const A: ViewId = ViewId(2);
const B: ViewId = ViewId(3);

/// A at (0,0)-(10,10) and B at (20,0)-(30,10), each with `interest`.
fn two_views(a: Interest, b: Interest) -> LayoutNodes {
    let mut layout = LayoutNodes::new();
    layout.new_layer(ROOT);
    layout.begin_compute(A);
    layout.finish_compute(A, Vec2::new(10, 10), a, true);
    layout.begin_compute(B);
    layout.set_position(B, Pos2::new(20, 0));
    layout.finish_compute(B, Vec2::new(10, 10), b, true);
    layout
}

fn views(sinks: Vec<u64>) -> Dispatcher<Views> {
    Dispatcher::new(Views { known: vec![1, 2, 3], sinks, log: vec![] })
}

fn no_mods() -> Modifiers {
    Modifiers::none()
}

#[test]
fn mouse_enters_and_leaves() {
    let layout = two_views(Interest::mouse(), Interest::mouse());
    let mut input = InputState::new();
    let mut d = views(vec![]);
    let r = input.update(&mut d, &layout, &Event::MouseMove { pos: Pos2::new(5, 5) });
    assert_eq!(r, Handled::Bubble);
    let mv = ViewEvent::MouseMove { pos: Pos2::new(5, 5), modifiers: no_mods() };
    assert_eq!(d.tree().log, vec![(A, mv), (B, mv), (A, ViewEvent::MouseEntered)]);
    assert!(input.is_hovered(A));
    assert!(!input.is_hovered(B));
    assert_eq!(input.mouse_pos(), Pos2::new(5, 5));

    input.update(&mut d, &layout, &Event::MouseMove { pos: Pos2::new(25, 5) });
    let mv = ViewEvent::MouseMove { pos: Pos2::new(25, 5), modifiers: no_mods() };
    assert_eq!(
        d.tree().log[3..].to_vec(),
        vec![(A, mv), (B, mv), (B, ViewEvent::MouseEntered), (A, ViewEvent::MouseLeave)]
    );
    assert!(input.is_hovered(B));
    assert!(!input.is_hovered(A));
}

#[test]
fn mouse_entry_stops_at_the_view_that_sinks_it() {
    // B lies over A
    let mut layout = LayoutNodes::new();
    layout.new_layer(ROOT);
    layout.begin_compute(A);
    layout.finish_compute(A, Vec2::new(10, 10), Interest::mouse_inside(), true);
    layout.begin_compute(B);
    layout.finish_compute(B, Vec2::new(10, 10), Interest::mouse_inside(), true);
    let mut input = InputState::new();
    let mut d = views(vec![2]);
    input.update(&mut d, &layout, &Event::MouseMove { pos: Pos2::new(1, 1) });
    assert_eq!(d.tree().log, vec![(A, ViewEvent::MouseEntered)]);
    assert!(input.is_hovered(A) && input.is_hovered(B));
    // moving within both again tells nobody: A sank the entry and is met first
    input.update(&mut d, &layout, &Event::MouseMove { pos: Pos2::new(2, 2) });
    assert_eq!(d.tree().log.len(), 1);
}

#[test]
fn primary_press_on_nothing_drops_focus() {
    let layout = two_views(Interest::mouse(), Interest::mouse());
    let mut input = InputState::new();
    let mut d = views(vec![]);
    input.set_focus(Some(A));
    input.begin(&mut d, &layout);
    assert_eq!(d.tree().log, vec![(A, ViewEvent::FocusGained)]);
    assert!(input.is_focused(A));

    let pos = Pos2::new(50, 50);
    let r = input.update(
        &mut d,
        &layout,
        &Event::MouseButtonChanged { pos, button: MouseButton::Primary, down: true, modifiers: no_mods() },
    );
    assert_eq!(r, Handled::Bubble);
    let held = ViewEvent::MouseHeld { pos, inside: false, button: MouseButton::Primary, modifiers: no_mods() };
    assert_eq!(d.tree().log[1..].to_vec(), vec![(A, held), (B, held), (A, ViewEvent::FocusLost)]);
    assert_eq!(input.focus(), None);
    // a second frame announces nothing more
    input.begin(&mut d, &layout);
    assert_eq!(d.tree().log.len(), 4);
}

#[test]
fn focus_on_a_missing_view_is_dropped() {
    let layout = two_views(Interest::none(), Interest::none());
    let mut input = InputState::new();
    let mut d = views(vec![]);
    input.set_focus(Some(ViewId(99)));
    input.begin(&mut d, &layout);
    assert_eq!(d.tree().log, vec![(ViewId(99), ViewEvent::FocusGained)]);
    assert_eq!(input.focus(), None);
}

#[test]
fn selection_changes_reach_interested_views() {
    let layout = two_views(Interest::selection_change(), Interest::selection_change());
    let mut input = InputState::new();
    let mut d = views(vec![]);
    input.set_selection(Some(B));
    input.begin(&mut d, &layout);
    assert_eq!(d.tree().log, vec![(A, ViewEvent::SelectionAdded(B)), (B, ViewEvent::SelectionAdded(B))]);
    assert_eq!(input.selection(), Some(B));
    input.set_selection(Some(A));
    input.begin(&mut d, &layout);
    assert_eq!(
        d.tree().log[2..].to_vec(),
        vec![
            (A, ViewEvent::SelectionAdded(A)),
            (B, ViewEvent::SelectionAdded(A)),
            (A, ViewEvent::SelectionRemoved(B)),
            (B, ViewEvent::SelectionRemoved(B)),
        ]
    );
}

#[test]
fn keys_go_to_the_focused_view_that_wants_them() {
    let layout = two_views(Interest::focus_input(), Interest::none());
    let mut input = InputState::new();
    let mut d = views(vec![2]);
    let press = Event::KeyPressed { key: Key::Char('x'), modifiers: Modifiers::shift() };
    assert_eq!(input.update(&mut d, &layout, &press), Handled::Bubble);
    assert!(d.tree().log.is_empty());
    assert_eq!(input.key_press(), Some(Keybind::new(Key::Char('x'), Modifiers::shift())));
    input.set_focus(Some(A));
    assert_eq!(input.update(&mut d, &layout, &press), Handled::Sink);
    assert_eq!(
        d.tree().log,
        vec![(A, ViewEvent::KeyInput { key: Key::Char('x'), modifiers: Modifiers::shift() })]
    );
    assert_eq!(input.modifiers(), Modifiers::shift());
    // B does not want key input
    input.set_focus(Some(B));
    assert_eq!(input.update(&mut d, &layout, &press), Handled::Bubble);
    assert_eq!(d.tree().log.len(), 1);
    input.end();
    assert_eq!(input.key_press(), None);
}

#[test]
fn scroll_is_offered_until_sunk() {
    let mut layout = LayoutNodes::new();
    layout.new_layer(ROOT);
    layout.begin_compute(A);
    layout.finish_compute(A, Vec2::new(10, 10), Interest::mouse(), true);
    layout.begin_compute(B);
    layout.finish_compute(B, Vec2::new(10, 10), Interest::mouse(), true);
    let mut input = InputState::new();
    let mut d = views(vec![2]);
    input.update(&mut d, &layout, &Event::MouseMove { pos: Pos2::new(3, 3) });
    let before = d.tree().log.len();
    let r = input.update(
        &mut d,
        &layout,
        &Event::MouseScroll { pos: Pos2::new(3, 3), delta: Vec2::new(0, 1), modifiers: no_mods() },
    );
    assert_eq!(r, Handled::Sink);
    assert_eq!(
        d.tree().log[before..].to_vec(),
        vec![(A, ViewEvent::MouseScroll { delta: Vec2::new(0, 1), modifiers: no_mods() })]
    );
}

#[test]
fn drags_report_start_and_delta() {
    let layout = two_views(Interest::mouse(), Interest::mouse());
    let mut input = InputState::new();
    let mut d = views(vec![]);
    input.update(&mut d, &layout, &Event::MouseMove { pos: Pos2::new(2, 2) });
    let before = d.tree().log.len();
    let drag = Event::MouseDrag { pos: Pos2::new(4, 3), button: MouseButton::Primary, modifiers: no_mods() };
    assert_eq!(input.update(&mut d, &layout, &drag), Handled::Bubble);
    let inside = ViewEvent::MouseDrag {
        start: Pos2::new(4, 3),
        current: Pos2::new(4, 3),
        delta: Vec2::new(2, 1),
        inside: true,
        modifiers: no_mods(),
        button: MouseButton::Primary,
    };
    let outside = ViewEvent::MouseDrag {
        start: Pos2::new(4, 3),
        current: Pos2::new(4, 3),
        delta: Vec2::new(2, 1),
        inside: false,
        modifiers: no_mods(),
        button: MouseButton::Primary,
    };
    assert_eq!(d.tree().log[before..].to_vec(), vec![(A, inside), (B, outside)]);
    // the same position again is no drag
    let n = d.tree().log.len();
    assert_eq!(input.update(&mut d, &layout, &drag), Handled::Bubble);
    assert_eq!(d.tree().log.len(), n);
    // releasing the button after a drag is not a click
    let release = Event::MouseButtonChanged {
        pos: Pos2::new(4, 3),
        button: MouseButton::Primary,
        down: false,
        modifiers: no_mods(),
    };
    assert_eq!(input.update(&mut d, &layout, &release), Handled::Bubble);
    assert_eq!(d.tree().log.len(), n);
}

#[test]
fn button_states_settle_at_the_end_of_a_frame() {
    let mut input = InputState::new();
    assert!(input.mouse_button_changed(MouseButton::Secondary, true));
    input.end();
    assert!(input.mouse_button_changed(MouseButton::Secondary, false));
    assert_eq!(ButtonState::JustDown.is_down(), true);
    let mut s = ButtonState::JustUp;
    s.settle();
    assert_eq!(s, ButtonState::Up);
}

#[test]
fn removed_views_are_forgotten() {
    let layout = two_views(Interest::mouse(), Interest::mouse());
    let mut input = InputState::new();
    let mut d = views(vec![]);
    input.update(&mut d, &layout, &Event::MouseMove { pos: Pos2::new(5, 5) });
    assert!(input.is_hovered(A));
    input.remove(A);
    assert!(!input.is_hovered(A));
}

#[test]
fn state_forgets_the_layout_of_removed_views() {
    let mut s = State::new(Palette::dark(), 0);
    let root = s.root();
    assert!(s.layout().contains(root));
    assert_eq!(s.palette(), Palette::dark());
    let mut d = views(vec![]);
    s.begin(&mut d);
    let a = s.nodes_mut().begin_view(7).id();
    s.nodes_mut().end_view(a);
    s.layout_mut().begin_compute(a);
    s.end();
    assert!(s.layout().contains(a));
    // the next frame does not show `a`
    s.begin(&mut d);
    s.nodes_mut().cleanup(root);
    s.end();
    assert!(s.nodes().get(a).is_none());
    assert!(!s.layout().contains(a));
    assert!(s.layout().contains(root));
}

#[test]
fn state_resize_bounds_the_debug_overlay() {
    let mut s = State::new(Palette::light(), 0);
    let mut d = views(vec![]);
    for i in 0..5 {
        s.debug(&format!(" message {i} "));
    }
    s.debug("   ");
    s.event(&mut d, &Event::Resize(Vec2::new(80, 3)));
    s.debug("last");
    let kept = s.drain_debug();
    assert_eq!(kept, vec!["message 3".to_string(), "message 4".to_string(), "last".to_string()]);
    s.set_palette(Palette::dark());
    assert_eq!(s.palette(), Palette::dark());
}

#[test]
fn scripted_steps_stand_for_backend_events() {
    let p = Pos2::new(3, 4);
    let press = |pos: Pos2, down: bool| Event::MouseButtonChanged {
        pos,
        button: MouseButton::Primary,
        down,
        modifiers: no_mods(),
    };
    assert_eq!(TestInput::MouseMove { pos: p }.events(), vec![Event::MouseMove { pos: p }]);
    assert_eq!(TestInput::Held { pos: p }.events(), vec![Event::MouseMove { pos: p }, press(p, true)]);
    assert_eq!(
        TestInput::Click { pos: p }.events(),
        vec![Event::MouseMove { pos: p }, press(p, true), press(p, false)]
    );
    assert_eq!(
        TestInput::Drag { start: p, delta: Vec2::new(-3, 10) }.events(),
        vec![Event::MouseMove { pos: p }, press(p, true), Event::MouseMove { pos: Pos2::new(0, 14) }]
    );
}

#[test]
fn state_replays_a_script_of_mouse_steps() {
    let mut s = State::new(Palette::dark(), 0);
    let mut d = views(vec![]);
    {
        let layout = s.layout_mut();
        layout.new_layer(ROOT);
        layout.begin_compute(A);
        layout.finish_compute(A, Vec2::new(10, 10), Interest::mouse(), true);
    }
    s.replay(&mut d, &vec![TestInput::MouseMove { pos: Pos2::new(5, 5) }, TestInput::Click { pos: Pos2::new(6, 6) }]);
    assert_eq!(s.input().mouse_pos(), Pos2::new(6, 6));
    assert!(s.input().is_hovered(A));
    let mv = ViewEvent::MouseMove { pos: Pos2::new(5, 5), modifiers: no_mods() };
    assert_eq!(d.tree().log[0..2].to_vec(), vec![(A, mv), (A, ViewEvent::MouseEntered)]);
    let mut fresh = State::new(Palette::dark(), 0);
    let mut d2 = views(vec![]);
    fresh.replay(&mut d2, &vec![]);
    assert!(d2.tree().log.is_empty());
}
