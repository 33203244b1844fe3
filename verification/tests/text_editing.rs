use too::geom::{Pos2, Rect};
use too::input::{Handled, ViewEvent};
use too::keys::{Key, Modifiers};
use too::views::text_input::{fit_cursor, text_input, Direction, Inner, InputView, WordSep};

fn key(k: Key, m: Modifiers) -> ViewEvent {
    ViewEvent::KeyInput { key: k, modifiers: m }
}

#[test]
fn appending_and_moving() {
    let mut t = Inner::new();
    t.append("hello");
    assert_eq!(t.buf, "hello");
    assert_eq!((t.cursor, t.selection), (5, 5));
    assert!(t.changed);
    t.move_cursor(-2);
    assert_eq!((t.cursor, t.selection), (3, 3));
    t.append("XY");
    assert_eq!(t.buf, "helXYlo");
    assert_eq!(t.cursor, 5);
    t.move_to_start();
    assert_eq!((t.cursor, t.selection), (0, 0));
    t.move_to_end();
    assert_eq!((t.cursor, t.selection), (7, 7));
    // appending nothing changes nothing
    t.changed = false;
    t.append("");
    assert!(!t.changed);
}

#[test]
fn selecting_and_deleting() {
    let mut t = Inner::new();
    t.append("helXYlo");
    t.move_cursor(-2);
    t.select(-2);
    assert!(t.has_selection());
    assert_eq!(t.selection_buffer(), Some("XY"));
    t.delete_selection();
    assert_eq!(t.buf, "hello");
    assert_eq!((t.cursor, t.selection), (3, 3));
    assert_eq!(t.selection_buffer(), None);
    t.select_start();
    assert_eq!(t.selection_buffer(), Some("hel"));
    t.overwrite_selection("J");
    assert_eq!(t.buf, "Jlo");
    assert_eq!(t.cursor, 1);
    t.select_end();
    assert_eq!(t.selection_buffer(), Some("lo"));
    t.cancel_select();
    assert_eq!(t.cursor, 3);
    t.select_range(-4);
    assert_eq!(t.selection, 0);
    t.reset_select();
    assert_eq!(t.selection, t.cursor);
    t.clear();
    assert_eq!(t.buf, "");
    assert_eq!((t.cursor, t.selection), (0, 0));
}

#[test]
fn deleting_characters() {
    let mut t = Inner::new();
    t.append("hello");
    t.delete(-2);
    assert_eq!(t.buf, "hel");
    assert_eq!(t.cursor, 3);
    t.move_to_start();
    t.delete(1);
    assert_eq!(t.buf, "el");
    assert_eq!(t.cursor, 0);
    // deleting past the start stops there
    t.delete(-3);
    assert_eq!(t.buf, "el");
    assert_eq!(t.cursor, 0);
}

#[test]
fn words() {
    assert_eq!(WordSep::new(" x"), WordSep::Space);
    assert_eq!(WordSep::new(",x"), WordSep::Punctuation);
    assert_eq!(WordSep::new("x"), WordSep::Other);
    assert_eq!(WordSep::new(""), WordSep::Other);
    assert_eq!(WordSep::new("é"), WordSep::Other);
    assert_eq!(WordSep::find_next_word_start("hello world", 0), Some(5));
    assert_eq!(WordSep::find_next_word_start("hello", 0), None);
    assert_eq!(WordSep::find_prev_word("hello world", 11), Some(6));
    assert_eq!(WordSep::find_prev_word("hello world", 5), None);

    let mut t = Inner::new();
    t.append("hello world");
    t.move_word(Direction::Backward);
    assert_eq!(t.cursor, 6);
    t.move_word(Direction::Forward);
    assert_eq!(t.cursor, 11);
    t.move_to_start();
    t.move_word(Direction::Forward);
    assert_eq!(t.cursor, 5);
    t.move_to_end();
    t.delete_word(Direction::Backward);
    assert_eq!(t.buf, "hello ");
    assert_eq!(t.cursor, 6);
    t.move_to_start();
    t.select_word(Direction::Forward);
    assert_eq!(t.selection, 5);
}

#[test]
fn fitting_the_cursor_in_view() {
    assert_eq!(fit_cursor("hello world", 3, 3, 5), (0, 0, 5));
    assert_eq!(fit_cursor("hello world", 8, 8, 5), (-3, 0, 11));
}

#[test]
fn a_text_input_view_edits_and_submits() {
    let mut v = InputView::create(text_input().initial("abc").placeholder("type"));
    assert_eq!(v.state.buf, "abc");
    assert_eq!(v.state.cursor, 3);
    assert_eq!(v.state.placeholder.as_deref(), Some("type"));
    let rect = Rect::from_min_max(Pos2::new(0, 0), Pos2::new(20, 1));
    assert_eq!(v.event(key(Key::Char('d'), Modifiers::none()), rect), Handled::Sink);
    assert_eq!(v.state.buf, "abcd");
    assert_eq!(v.event(key(Key::Backspace, Modifiers::none()), rect), Handled::Sink);
    assert_eq!(v.state.buf, "abc");
    assert_eq!(v.event(key(Key::Left, Modifiers::shift()), rect), Handled::Sink);
    let r = v.update(text_input());
    assert_eq!(r.selection(), Some("c"));
    assert_eq!(r.data(), "abc");
    assert_eq!(v.event(key(Key::Enter, Modifiers::none()), rect), Handled::Sink);
    let mut r = v.update(text_input());
    assert_eq!(r.submitted(), Some("abc"));
    assert_eq!(r.take_submitted(), Some("abc".to_string()));
    assert_eq!(r.submitted(), None);
    assert_eq!(v.state.buf, "");
    assert!(r.changed());
    assert_eq!(r.cursor(), 0);
    // a disabled input lets everything bubble
    let mut off = InputView::create(text_input().enabled(false));
    assert_eq!(off.event(key(Key::Char('x'), Modifiers::none()), rect), Handled::Bubble);
    assert_eq!(off.state.buf, "");
    assert_eq!(off.event(ViewEvent::FocusGained, rect), Handled::Bubble);
}

#[test]
fn wide_characters_are_one_char_each() {
    let mut t = Inner::new();
    t.append("日本");
    assert_eq!(t.buf, "日本");
    t.move_cursor(-1);
    t.select(1);
    assert_eq!(t.selection_buffer(), Some("本"));
}

#[test]
fn ctrl_w_deletes_the_previous_word_even_with_a_selection() {
    let mut v = InputView::create(text_input().initial("one two"));
    let rect = Rect::from_min_max(Pos2::new(0, 0), Pos2::new(20, 1));
    assert_eq!(v.event(key(Key::Left, Modifiers::shift()), rect), Handled::Sink);
    assert_eq!((v.state.cursor, v.state.selection), (7, 6));
    assert_eq!(v.event(key(Key::Char('w'), Modifiers::ctrl()), rect), Handled::Sink);
    assert_eq!(v.state.buf, "one ");
    assert_eq!((v.state.cursor, v.state.selection), (4, 4));
}
