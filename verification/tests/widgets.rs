use too::debug::{debug, DebugMode};
use too::geom::{Margin, Pos2, Rect, Vec2};
use too::input::{Handled, ViewEvent};
use too::keys::{Key, Keybind, Modifiers, MouseButton};
use too::layout::Axis;
use too::style::{Elements, Palette};
use too::views::border::Border;
use too::views::checkbox::{checkbox, CheckboxClass};
use too::views::radio::{radio, RadioLook};
use too::views::mouse_area::MouseAreaResponse;
use too::response::Response;
use too::input::ViewId;
use too::views::button::{button, Button};
use too::views::drop_down::{DropDownItem, DropDownResponse, DropDownState};
use too::views::key_area::{key_area, KeyAreaResponse};
use too::views::list::{list_event, CrossAlign, Justify};
use too::views::markers::{clip, float, Clip, Float};
use too::views::mouse_area::{MouseArea, MouseState};
use too::views::scrollable::{scrollable, ScrollAxis, ScrollView, Scrollable};
use too::views::styles::{ButtonStyle, CheckboxStyle, LabelStyle, ProgressStyle, RadioStyle, State};
use too::views::toggle_switch::{ToggleSwitch, ToggleSwitchView};

#[test]
fn border_edges_and_margin() {
    let b = Border::thin();
    assert!(b.has_left() && b.has_top() && b.has_right() && b.has_bottom());
    assert_eq!(b.as_margin(), Margin::same(1));
    let nt = b.without_top();
    assert_eq!(nt.top, ' ');
    assert_eq!(nt.left_top, b.left);
    // the corners now continue the side edges, so the top row still draws
    assert!(nt.has_top());
    let e = Border::empty();
    assert_eq!(e.as_margin(), Margin::same(0));
    let only_left = Border { left: '│', ..Border::empty() };
    assert_eq!(only_left.as_margin(), Margin::new(1, 0, 0, 0));
    assert_eq!(Border::default(), Border::thick());
    let nc = Border::rounded().without_corners();
    assert_eq!(nc.left_top, '─');
    assert_eq!(nc.left_bottom, '─');
    assert_eq!(Border::double().without_left().left, ' ');
    assert_eq!(Border::thick_wide().without_right().right_top, Border::thick_wide().top);
    assert_eq!(Border::thin().without_bottom().left_bottom, '│');
}

#[test]
fn key_area_catches_keys_once() {
    let mut k = key_area();
    let ev = ViewEvent::KeyInput { key: Key::Char('q'), modifiers: Modifiers::ctrl() };
    assert_eq!(k.event(ev), Handled::Sink);
    assert_eq!(k.event(ViewEvent::MouseEntered), Handled::Bubble);
    let r = k.update();
    assert_eq!(r.key_binding(), Some(Keybind::new(Key::Char('q'), Modifiers::ctrl())));
    assert!(r.key_pressed(Keybind::new(Key::Char('q'), Modifiers::ctrl())));
    assert!(!r.key_pressed(Keybind::from_key(Key::Char('q'))));
    assert!(r.is_ctrl() && r.is_ctrl_only() && !r.is_shift() && !r.is_alt());
    let again = k.update();
    assert_eq!(again, KeyAreaResponse { key: None, modifiers: None });
    assert!(!again.key_pressed(Keybind::from_key(Key::Char('q'))));
    assert_eq!(k.interests().0, 16);
}

#[test]
fn mouse_area_records_a_frame() {
    let mut m = MouseArea::new();
    assert_eq!(m.event(ViewEvent::MouseEntered, Pos2::new(0, 0)), Handled::Sink);
    let r = m.update();
    assert!(r.hovered() && r.entered() && !r.held() && !r.leave());
    assert_eq!(m.state, MouseState::Away);
    let drag = ViewEvent::MouseDrag {
        start: Pos2::new(5, 5),
        current: Pos2::new(6, 7),
        delta: Vec2::new(1, 2),
        inside: true,
        modifiers: Modifiers::none(),
        button: MouseButton::Primary,
    };
    assert_eq!(m.event(drag, Pos2::new(2, 3)), Handled::Sink);
    let r = m.update();
    assert!(r.held());
    let d = r.dragged().unwrap();
    assert_eq!(d.start(), Pos2::new(5, 5));
    assert_eq!(d.current(), Pos2::new(6, 7));
    // the view's corner follows the mouse: offset (2-6, 3-7) from (6, 7)
    assert_eq!(d.offset(), Pos2::new(2, 3));
    assert_eq!(m.event(ViewEvent::MouseScroll { delta: Vec2::new(0, -1), modifiers: Modifiers::none() }, Pos2::new(0, 0)), Handled::Sink);
    assert_eq!(m.update().scrolled(), Some(Vec2::new(0, -1)));
    assert_eq!(m.update().scrolled(), None);
    assert_eq!(m.event(ViewEvent::MouseMove { pos: Pos2::new(9, 9), modifiers: Modifiers::none() }, Pos2::new(0, 0)), Handled::Sink);
    let r = m.update();
    assert_eq!(r.position(), Pos2::new(9, 9));
    assert!(r.dragged().is_none());
    assert!(!r.clicked());
    assert_eq!(m.event(ViewEvent::FocusGained, Pos2::new(0, 0)), Handled::Bubble);
}

#[test]
fn scroll_axes() {
    assert_eq!(scrollable(), Scrollable { axis: ScrollAxis::Vertical });
    let both = scrollable().horizontal(true);
    assert_eq!(both.axis, ScrollAxis::Both);
    assert!(both.has_horizontal() && both.has_vertical());
    let h = both.vertical(false);
    assert_eq!(h.axis, ScrollAxis::Horizontal);
    assert!(!h.has_vertical());
    assert_eq!(scrollable().horizontal(false).axis, ScrollAxis::Vertical);
    assert_eq!(h.vertical(true).axis, ScrollAxis::Both);
}

#[test]
fn scrolling_stays_within_the_content() {
    let mut v = ScrollView {
        opts: scrollable(),
        pos: Vec2::new(0, 0),
        child_size: Vec2::new(10, 50),
        size: Vec2::new(10, 20),
        x_hovered: false,
        y_hovered: false,
    };
    let down = v.scroll_delta(ViewEvent::KeyInput { key: Key::Down, modifiers: Modifiers::none() }).unwrap();
    assert_eq!(down, Vec2::new(0, 1));
    v.scroll_by(down);
    assert_eq!(v.pos, Vec2::new(0, -1));
    let end = v.scroll_delta(ViewEvent::KeyInput { key: Key::End, modifiers: Modifiers::none() }).unwrap();
    v.scroll_by(end);
    assert_eq!(v.pos, Vec2::new(0, -30));
    let home = v.scroll_delta(ViewEvent::KeyInput { key: Key::Home, modifiers: Modifiers::none() }).unwrap();
    v.scroll_by(home);
    assert_eq!(v.pos, Vec2::new(0, 0));
    let page = v.scroll_delta(ViewEvent::KeyInput { key: Key::PageDown, modifiers: Modifiers::none() }).unwrap();
    assert_eq!(page, Vec2::new(0, 20));
    let wheel = v.scroll_delta(ViewEvent::MouseScroll { delta: Vec2::new(0, -3), modifiers: Modifiers::none() }).unwrap();
    assert_eq!(wheel, Vec2::new(0, 3));
    // a horizontal move does nothing on a vertical view
    v.scroll_by(Vec2::new(5, 0));
    assert_eq!(v.pos, Vec2::new(0, 0));
    assert_eq!(v.scroll_delta(ViewEvent::KeyInput { key: Key::Tab, modifiers: Modifiers::none() }), None);
    assert_eq!(v.scroll_delta(ViewEvent::MouseEntered), None);
}

#[test]
fn toggle_switch_flips_and_reports() {
    let mut value = false;
    let mut view = ToggleSwitchView::create(ToggleSwitch::new(value));
    let click = ViewEvent::MouseClicked { pos: Pos2::new(0, 0), inside: true, button: MouseButton::Primary, modifiers: Modifiers::none() };
    assert_eq!(view.event(click), Handled::Sink);
    let r = view.update(&mut value);
    assert!(r.changed());
    assert!(value);
    let r = view.update(&mut value);
    assert!(!r.changed());
    // dragging towards the side it is on does nothing
    let drag_right = ViewEvent::MouseDrag {
        start: Pos2::new(0, 0),
        current: Pos2::new(1, 0),
        delta: Vec2::new(1, 0),
        inside: true,
        modifiers: Modifiers::none(),
        button: MouseButton::Primary,
    };
    assert_eq!(view.event(drag_right), Handled::Bubble);
    // the caller changing the value is followed
    value = false;
    let r = view.update(&mut value);
    assert!(!r.changed());
    assert!(!view.value);
    assert_eq!(view.event(drag_right), Handled::Sink);
    assert!(view.value);
}

#[test]
fn drop_down_navigation() {
    let mut s = DropDownState::default();
    let mut selected = None;
    let up = KeyAreaResponse { key: Some(Key::Up), modifiers: Some(Modifiers::none()) };
    s.navigate(&up, 3, &mut selected);
    assert_eq!(s.index, 2);
    assert_eq!(selected, Some(2));
    let down = KeyAreaResponse { key: Some(Key::Down), modifiers: None };
    s.navigate(&down, 3, &mut selected);
    assert_eq!(s.index, 0);
    let right = KeyAreaResponse { key: Some(Key::Right), modifiers: None };
    s.navigate(&right, 3, &mut selected);
    assert!(s.expanded);
    let esc = KeyAreaResponse { key: Some(Key::Escape), modifiers: None };
    s.navigate(&esc, 3, &mut selected);
    assert!(!s.expanded);
    s.entry_response(1, true, false, &mut selected);
    assert_eq!(s.hovered, Some(1));
    s.entry_response(2, true, true, &mut selected);
    assert_eq!((s.index, s.hovered, selected), (2, None, Some(2)));
    let resp = DropDownResponse { selected: Some(1) };
    let values = [Fruit::Apple, Fruit::Banana, Fruit::Cherry];
    assert_eq!(resp.resolve(&values), Some(&Fruit::Banana));
    assert_eq!(DropDownResponse { selected: Some(7) }.resolve(&values), None);
    assert_eq!(resp.selected(), Some(1));
    assert_eq!(DropDownState::new(4).index, 4);
}

#[test]
fn styles_pick_palette_colors() {
    let p = Palette::dark();
    assert_eq!(LabelStyle::default(&p).foreground, p.foreground);
    assert_eq!(LabelStyle::warning(&p).foreground, p.warning);
    assert_eq!(LabelStyle::info(&p).foreground, p.info);
    assert_eq!(LabelStyle::danger(&p).foreground, p.danger);
    let ps = ProgressStyle::default(&p, Axis::Horizontal);
    assert_eq!((ps.unfilled, ps.filled), (Elements::MEDIUM_RECT, Elements::LARGE_RECT));
    assert_eq!(ProgressStyle::default(&p, Axis::Vertical).unfilled, Elements::LARGE_RECT);
    assert_eq!(ProgressStyle::thin(&p, Axis::Vertical).filled, Elements::VERTICAL_LINE);
    assert_eq!(ProgressStyle::thick(&p, Axis::Horizontal).filled, Elements::THICK_HORIZONTAL_LINE);
    assert_eq!(ProgressStyle::thin_dashed(&p, Axis::Horizontal).unfilled, Elements::DASH_HORIZONTAL_LINE);
    assert_eq!(ProgressStyle::thick_dashed(&p, Axis::Vertical).unfilled, Elements::THICK_DASH_VERTICAL_LINE);
    assert_eq!(ProgressStyle::medium_filled(&p, Axis::Vertical).filled, Elements::MEDIUM_RECT);
    assert_eq!(ProgressStyle::filled(&p, Axis::Horizontal).unfilled, Elements::LARGE_RECT);
    assert_eq!(ps.filled_color, p.primary);

    let r = RadioStyle::hovered(&p, false);
    assert_eq!(r.fill(true, false), p.secondary);
    assert_eq!(r.fill(false, true), p.primary);
    assert_eq!(r.text(true), p.surface);
    let d = RadioStyle::default(&p, true);
    assert_eq!(d.fill(true, true), p.primary);
    assert_eq!(d.text(true), p.foreground);

    let c = CheckboxStyle::markdown(&p, true);
    assert_eq!(c.marker(true), "[X]");
    assert_eq!(c.marker(false), "[ ]");
    assert_eq!(c.foreground(true), p.contrast);
    assert_eq!(CheckboxStyle::ascii(&p, false).marker(true), "🗹");

    assert_eq!(ButtonStyle::default(&p, State::Idle).background, p.outline);
    assert_eq!(ButtonStyle::default(&p, State::Hovered).background, p.accent);
    let dis = ButtonStyle::danger(&p, State::Disabled);
    assert_eq!((dis.text_color, dis.background), (p.outline, p.surface));
    // on a dark palette colored buttons carry the background color as text
    assert_eq!(ButtonStyle::success(&p, State::Idle).text_color, p.background);
    let l = Palette::light();
    assert_eq!(ButtonStyle::info(&l, State::Clicked).text_color, l.foreground);
    assert_eq!(ButtonStyle::warning(&l, State::Held).background, l.secondary);
}

#[test]
fn list_alignment_and_markers() {
    assert!(CrossAlign::Stretch.is_stretch());
    assert!(!CrossAlign::Fill.is_stretch());
    assert!(CrossAlign::Fill.is_fill());
    assert_eq!(CrossAlign::default(), CrossAlign::Start);
    assert_eq!(Justify::default(), Justify::Start);
    assert_eq!(float(), Float);
    assert_eq!(clip(), Clip);
    let m = too::views::markers::Margin::new(Margin::same(2));
    assert_eq!(m.margin, Margin::same(2));
}

#[test]
fn debug_overlay_keeps_trimmed_messages() {
    let mut o = too::debug::Debug::new();
    debug(&mut o, "  hello  ");
    debug(&mut o, "   ");
    o.push("world");
    assert!(o.is_enabled());
    assert_eq!(o.drain(), vec!["hello".to_string(), "world".to_string()]);
    o.set_debug_mode(DebugMode::Off);
    assert!(!o.is_enabled());
    o.push("ignored");
    assert!(o.drain().is_empty());
    o.set_debug_mode(DebugMode::Rolling);
    o.resize(1);
    o.push("a");
    o.push("b");
    assert_eq!(o.drain(), vec!["b".to_string()]);
    o.resize(3);
    debug(&mut o, "\u{3000}\t wide \u{a0}\n");
    debug(&mut o, "\u{2028}\u{205f}");
    assert_eq!(o.drain(), vec!["wide".to_string()]);
    assert_eq!(DebugMode::default(), DebugMode::Rolling);
}

#[test]
fn button_goes_through_its_states() {
    let click = ViewEvent::MouseClicked { pos: Pos2::new(0, 0), inside: true, button: MouseButton::Primary, modifiers: Modifiers::none() };
    let held = ViewEvent::MouseHeld { pos: Pos2::new(0, 0), inside: true, button: MouseButton::Primary, modifiers: Modifiers::none() };
    let outside = ViewEvent::MouseClicked { pos: Pos2::new(9, 9), inside: false, button: MouseButton::Primary, modifiers: Modifiers::none() };
    let mut b = Button::create(button("ok").margin(Margin::symmetric(1, 0)));
    assert_eq!(b.state, State::Idle);
    assert_eq!(b.margin, Margin::symmetric(1, 0));
    assert_eq!(b.event(ViewEvent::MouseEntered), Handled::Sink);
    assert_eq!(b.state, State::Hovered);
    assert_eq!(b.event(held), Handled::Sink);
    assert!(b.update(button("ok")).held());
    assert_eq!(b.event(click), Handled::Sink);
    assert_eq!(b.event(outside), Handled::Bubble);
    // the click is reported once, then the button is hovered again
    let r = b.update(button("ok!"));
    assert!(r.clicked() && !r.hovered());
    assert_eq!(b.label, "ok!");
    assert!(b.update(button("ok!")).hovered());
    assert_eq!(b.event(ViewEvent::MouseLeave), Handled::Sink);
    assert_eq!(b.state, State::Idle);
    assert_eq!(b.event(ViewEvent::FocusGained), Handled::Bubble);
    assert_eq!(b.interests(), too::interest::Interest::mouse_inside());
}

#[test]
fn disabled_button_lets_events_bubble() {
    let mut b = Button::create(Button::new("no").disabled(false));
    assert_eq!(b.event(ViewEvent::MouseEntered), Handled::Bubble);
    assert!(b.update(Button::new("no")).disabled());
}

fn area(id: u64, clicked: bool) -> Response<MouseAreaResponse> {
    let inner = MouseAreaResponse {
        clicked,
        hovered: clicked,
        held: false,
        pos: Pos2 { x: 0, y: 0 },
        entered: false,
        leave: false,
        dragged: None,
        scrolled: None,
    };
    Response::new(ViewId(id), inner)
}

#[test]
fn checkbox_flips_on_click() {
    let p = Palette::dark();
    let mut v = false;
    let c = checkbox(&mut v, "dark mode");
    let look = c.look(&p, false);
    assert_eq!(look.marker, "\u{2610}");
    assert_eq!(look.foreground, p.foreground);
    assert_eq!(c.look(&p, true).foreground, p.contrast);
    let r = c.show(area(7, true));
    assert_eq!(r.id(), ViewId(7));
    assert!(*r.inner());
    assert!(v);
    let c = checkbox(&mut v, "dark mode").style(CheckboxStyle::markdown(&p, true));
    assert_eq!(c.look(&p, false).marker, "[X]");
    let r = c.show(area(7, false));
    assert!(!*r.inner());
    assert!(v);
    let c = checkbox(&mut v, "dark mode").class(CheckboxClass::Markdown);
    assert_eq!(c.look(&p, false).marker, "[X]");
    assert_eq!(c.look(&p, true).foreground, p.contrast);
    let c = c.style(CheckboxStyle::ascii(&p, true)).class(CheckboxClass::Markdown);
    assert_eq!(c.look(&p, false).marker, "[X]");
    let _ = c.show(area(7, false));
    let r = checkbox(&mut v, "dark mode").show(area(7, true));
    assert!(r.into_inner());
    assert!(!v);
}

#[test]
fn radio_selects_its_value_on_click() {
    let p = Palette::dark();
    let mut choice: u32 = 1;
    let r = radio(2u32, &mut choice, "two");
    assert_eq!(r.look(&p, false), RadioLook { fill: p.surface, text: p.foreground });
    let resp = r.show(area(3, false));
    assert!(!resp.into_inner());
    assert_eq!(choice, 1);
    let r = radio(2u32, &mut choice, "two");
    assert!(r.show(area(3, true)).into_inner());
    assert_eq!(choice, 2);
    let r = radio(2u32, &mut choice, "two");
    assert_eq!(r.look(&p, false), RadioLook { fill: p.primary, text: p.foreground });
    let _ = r.show(area(3, false));
    let r = radio(1u32, &mut choice, "one").style(RadioStyle::hovered(&p, false));
    assert_eq!(r.look(&p, true), RadioLook { fill: p.secondary, text: p.surface });
    assert_eq!(r.look(&p, false), RadioLook { fill: p.surface, text: p.foreground });
    let _ = r.show(area(3, false));
    assert_eq!(choice, 2);
}

#[derive(Debug, PartialEq)]
enum Fruit {
    Apple,
    Banana,
    Cherry,
    Durian,
}

impl DropDownItem for Fruit {
    fn short(&self) -> String {
        match self {
            Fruit::Apple => "a".to_string(),
            Fruit::Banana => "b".to_string(),
            Fruit::Cherry => "c".to_string(),
            Fruit::Durian => "d".to_string(),
        }
    }
}

#[test]
fn drop_down_starts_on_the_selected_item() {
    let items = [Fruit::Apple, Fruit::Banana, Fruit::Cherry, Fruit::Banana];
    let s = DropDownState::from_items(&Fruit::Banana, &items);
    assert_eq!((s.index, s.expanded, s.hovered), (1, false, None));
    assert_eq!(DropDownState::from_items(&Fruit::Cherry, &items).index, 2);
    assert_eq!(DropDownState::from_items(&Fruit::Durian, &items).index, 0);
    assert_eq!(DropDownState::from_items(&Fruit::Apple, &[]).index, 0);
    assert_eq!(Fruit::Cherry.long(), "c");
}

#[test]
fn drop_down_highlights_hovered_then_chosen_entry() {
    let p = Palette::light();
    let mut s = DropDownState::new(2);
    s.expanded = true;
    assert_eq!(s.entry_background(2, &p), Some(p.secondary));
    assert_eq!(s.entry_background(0, &p), None);
    s.hovered = Some(2);
    assert_eq!(s.entry_background(2, &p), Some(p.primary));
    s.hovered = Some(0);
    assert_eq!(s.entry_background(0, &p), Some(p.primary));
    assert_eq!(s.entry_background(2, &p), Some(p.secondary));
}

#[test]
fn a_scrollable_list_answers_keys_wheel_and_knob() {
    let rect = Rect::from_min_max(Pos2::new(0, 0), Pos2::new(10, 5));
    let knob = Pos2::new(9, 0);
    let v = Axis::Vertical;
    let k = |key| ViewEvent::KeyInput { key, modifiers: Modifiers::none() };
    // not scrollable: everything bubbles
    assert_eq!(list_event(false, 3, 10, knob, true, 0, v, rect, k(Key::Down)), (Handled::Bubble, 3, true));
    assert_eq!(list_event(true, 3, 10, knob, false, 0, v, rect, k(Key::Down)), (Handled::Sink, 4, false));
    assert_eq!(list_event(true, 0, 10, knob, false, 0, v, rect, k(Key::Up)), (Handled::Sink, 0, false));
    assert_eq!(list_event(true, 3, 10, knob, false, 0, v, rect, k(Key::PageDown)), (Handled::Sink, 8, false));
    assert_eq!(list_event(true, 3, 10, knob, false, 0, v, rect, k(Key::PageUp)), (Handled::Sink, 0, false));
    assert_eq!(list_event(true, 3, 10, knob, false, 0, v, rect, k(Key::End)), (Handled::Sink, 9, false));
    assert_eq!(list_event(true, 3, 10, knob, false, 0, v, rect, k(Key::Home)), (Handled::Sink, 0, false));
    assert_eq!(list_event(true, 3, 10, knob, false, 0, v, rect, k(Key::Enter)), (Handled::Bubble, 3, false));
    assert_eq!(list_event(true, 3, 0, knob, false, 0, v, rect, k(Key::Down)), (Handled::Sink, 0, false));
    let scroll = ViewEvent::MouseScroll { delta: Vec2::new(7, 2), modifiers: Modifiers::none() };
    assert_eq!(list_event(true, 3, 10, knob, false, 0, v, rect, scroll), (Handled::Sink, 5, false));
    assert_eq!(list_event(true, 3, 10, knob, false, 0, Axis::Horizontal, rect, scroll), (Handled::Sink, 9, false));
    let held = |pos, inside| ViewEvent::MouseHeld { pos, inside, button: MouseButton::Primary, modifiers: Modifiers::none() };
    assert_eq!(list_event(true, 3, 10, knob, false, 0, v, rect, held(knob, true)), (Handled::Sink, 3, true));
    assert_eq!(list_event(true, 3, 10, knob, true, 0, v, rect, held(Pos2::new(1, 1), true)), (Handled::Sink, 3, false));
    assert_eq!(list_event(true, 3, 10, knob, true, 0, v, rect, held(knob, false)), (Handled::Bubble, 3, true));
    let drag = |delta| ViewEvent::MouseDrag {
        start: Pos2::new(9, 0),
        current: Pos2::new(9, 3),
        delta,
        inside: true,
        modifiers: Modifiers::none(),
        button: MouseButton::Primary,
    };
    // dragging the held knob goes where it points, within the last child
    assert_eq!(list_event(true, 3, 10, knob, true, 6, v, rect, drag(Vec2::new(0, 1))), (Handled::Sink, 6, true));
    assert_eq!(list_event(true, 3, 10, knob, true, 40, v, rect, drag(Vec2::new(0, 1))), (Handled::Sink, 9, true));
    // dragging elsewhere scrolls back by the step
    assert_eq!(list_event(true, 3, 10, knob, false, 0, v, rect, drag(Vec2::new(0, 2))), (Handled::Sink, 1, false));
    let mv = ViewEvent::MouseMove { pos: Pos2::new(2, 2), modifiers: Modifiers::none() };
    assert_eq!(list_event(true, 3, 10, knob, true, 0, v, rect, mv), (Handled::Sink, 3, false));
    let on_knob = ViewEvent::MouseMove { pos: knob, modifiers: Modifiers::none() };
    assert_eq!(list_event(true, 3, 10, knob, true, 0, v, rect, on_knob), (Handled::Sink, 3, true));
    assert_eq!(list_event(true, 3, 10, knob, true, 0, v, rect, ViewEvent::FocusGained), (Handled::Bubble, 3, true));
}
