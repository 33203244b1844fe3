//! The built-in views and their styles.

pub mod text_input;
pub mod border;
pub mod button;
pub mod key_area;
pub mod mouse_area;
pub mod styles;
pub mod scrollable;
pub mod toggle_switch;
pub mod drop_down;
pub mod list;
pub mod markers;
pub mod checkbox;
pub mod radio;
