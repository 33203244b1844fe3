use too::filter::Depth;
use too::geom::{Margin, Pos2, Rect, Vec2};
use too::interest::Interest;
use too::keys::{Event, Key, Keybind, Modifiers, MouseButton};
use too::style::{Elements, Palette, Rgba};

fn rect(x0: i32, y0: i32, x1: i32, y1: i32) -> Rect {
    Rect::from_min_max(Pos2::new(x0, y0), Pos2::new(x1, y1))
}

#[test]
fn margin_constructors() {
    assert_eq!(Margin::new(1, 2, 3, 4), Margin { left: 1, top: 2, right: 3, bottom: 4 });
    assert_eq!(Margin::symmetric(2, 5), Margin { left: 2, top: 5, right: 2, bottom: 5 });
    assert_eq!(Margin::same(3), Margin { left: 3, top: 3, right: 3, bottom: 3 });
    assert_eq!(Margin::zero(), Margin::same(0));
    assert_eq!(Margin::one(), Margin::symmetric(1, 1));
    assert_eq!(Margin::new(1, 2, 3, 4).left_top(), Pos2::new(1, 2));
    assert_eq!(Margin::new(1, 2, 3, 4).right_bottom(), Pos2::new(3, 4));
}

#[test]
fn margin_expand_then_shrink_is_identity() {
    let m = Margin::new(1, 2, 3, 4);
    let r = rect(10, 10, 20, 30);
    let grown = m.expand_rect(r);
    assert_eq!(grown, rect(9, 8, 23, 34));
    assert_eq!(m.shrink_rect(grown), r);
    assert_eq!(m.expand_rect(m.shrink_rect(r)), r);
}

#[test]
fn rect_operations() {
    let a = rect(0, 0, 10, 10);
    let b = rect(5, 2, 20, 8);
    assert_eq!(a.intersection(b), rect(5, 2, 10, 8));
    assert!(a.contains(Pos2::new(0, 0)));
    assert!(a.contains(Pos2::new(9, 9)));
    assert!(!a.contains(Pos2::new(10, 9)));
    assert!(!a.is_empty());
    assert!(rect(3, 3, 3, 9).is_empty());
    assert_eq!(a.translate(Vec2::new(2, -1)), rect(2, -1, 12, 9));
    let mut c = a;
    c.set_size(Vec2::new(4, 5));
    assert_eq!(c, rect(0, 0, 4, 5));
    assert_eq!(a.left_top(), Pos2::new(0, 0));
}

#[test]
fn interest_flags_and_names() {
    let m = Interest::mouse();
    assert!(m.is_mouse_inside() && m.is_mouse_outside() && m.is_mouse_move());
    assert!(!m.is_focus());
    assert!(Interest::none().is_none());
    assert_eq!(Interest::none().debug_string(), "NONE");
    assert_eq!(m.debug_string(), "MOUSE_INSIDE | MOUSE_OUTSIDE | MOUSE_MOVE");
    let fi = Interest::focus() | Interest::selection_change();
    assert_eq!(fi.debug_string(), "FOCUS | SELECTION_CHANGE");
    assert_eq!((fi & Interest::focus()).debug_string(), "FOCUS");
    assert_eq!((fi ^ Interest::focus()).debug_string(), "SELECTION_CHANGE");
    // negation keeps the flags as they are
    assert_eq!(!fi, fi);
    assert!(Interest::focus_input().is_focus_input());
    assert!(Interest::mouse_move().is_mouse_any());
    assert!(!Interest::focus().is_mouse_any());
}

#[test]
fn modifiers_and_keybinds() {
    let s = Modifiers::shift();
    assert!(s.is_shift() && s.is_shift_only() && !s.is_ctrl());
    let sc = Modifiers(Modifiers::shift().0 | Modifiers::ctrl().0);
    assert!(sc.is_shift() && sc.is_ctrl() && !sc.is_shift_only() && !sc.is_ctrl_only());
    assert!(Modifiers::alt().is_alt_only());
    assert!(Modifiers::none().is_none());
    assert_eq!(Keybind::from_key(Key::Enter), Keybind::new(Key::Enter, Modifiers::none()));
}

#[test]
fn event_modifiers() {
    let ev = Event::KeyPressed { key: Key::Char('a'), modifiers: Modifiers::ctrl() };
    assert_eq!(ev.modifiers(), Some(Modifiers::ctrl()));
    assert_eq!(Event::MouseMove { pos: Pos2::new(1, 1) }.modifiers(), None);
    let click = Event::MouseButtonChanged {
        pos: Pos2::new(0, 0),
        button: MouseButton::Primary,
        down: true,
        modifiers: Modifiers::alt(),
    };
    assert_eq!(click.modifiers(), Some(Modifiers::alt()));
    assert_eq!(Event::Resize(Vec2::new(80, 25)).modifiers(), None);
}

#[test]
fn palettes() {
    let dark = Palette::dark();
    assert_eq!(dark.background, Rgba::rgb(0x13, 0x13, 0x13));
    assert_eq!(dark.primary, Rgba::rgb(0x55, 0xB1, 0xF0));
    assert!(dark.is_dark());
    assert!(!dark.is_light());
    let light = Palette::light();
    assert_eq!(light.background, Rgba::rgb(0xE0, 0xE0, 0xE0));
    assert_eq!(light.info, Rgba::rgb(0x00, 0x77, 0xC2));
    assert!(light.is_light());
    assert_eq!(Palette::default(), dark);
    assert!(Rgba::rgb(0, 0, 0).is_dark());
    assert!(!Rgba::rgb(255, 255, 255).is_dark());
}

#[test]
fn elements_characters() {
    assert_eq!(Elements::LARGE_RECT, '█');
    assert_eq!(Elements::THICK_VERTICAL_LINE, '┃');
    assert_eq!(Elements::DASH_HORIZONTAL_LINE, '╌');
}

#[test]
fn search_depths() {
    assert!(Depth::Immediate.admits(0));
    assert!(!Depth::Immediate.admits(1));
    assert!(Depth::Specific(2).admits(1));
    assert!(!Depth::Specific(2).admits(2));
    assert!(Depth::All.admits(1000));
    assert_eq!(Depth::default(), Depth::All);
}

#[test]
fn short_names() {
    assert_eq!(too::helpers::short_name("too::views::Label"), "Label");
    assert_eq!(too::helpers::short_name("std::option::Option<alloc::string::String>"), "Option<String>");
    assert_eq!(too::helpers::short_name("a::Foo<b::Bar>::c::Baz"), "Foo<Bar>::Baz");
    assert_eq!(too::helpers::short_name("(a::B, c::D)"), "(B, D)");
    assert_eq!(too::helpers::short_name(""), "");
    for name in ["a::Foo<b::Bar>::c::Baz", "x>:::a", ":::a", "(a::B, c::D)", "a,::b"] {
        let once = too::helpers::short_name(name);
        assert_eq!(too::helpers::short_name(&once), once);
        assert!(once.chars().count() <= name.chars().count());
    }
}

#[test]
fn queue_keeps_most_recent() {
    let mut q = too::helpers::Queue::new(2);
    assert!(q.is_empty());
    q.push(1);
    q.push(2);
    q.push(3);
    assert_eq!(q.len(), 2);
    assert_eq!(q.iter().copied().collect::<Vec<_>>(), vec![2, 3]);
    q.resize(5);
    assert_eq!(q.current_size(), 5);
    assert_eq!(q.len(), 2);
    q.push(4);
    q.resize(1);
    assert_eq!(q.current_size(), 1);
    assert_eq!(q.iter().copied().collect::<Vec<_>>(), vec![4]);
    q.resize(5);
    q.push(5);
    q.push(6);
    q.resize(0);
    assert!(q.is_empty());
    q.resize(3);
    q.push(1);
    q.push(2);
    assert_eq!(q.drain(), vec![1, 2]);
    assert!(q.is_empty());
    let mut z = too::helpers::Queue::new(0);
    z.push(7);
    assert!(z.is_empty());
}
