//! A terminal user-interface toolkit: geometry, event interests, input state,
//! styles and the state machines behind the built-in views.

pub mod debug;
pub mod debug_tree;
pub mod event_ctx;
pub mod filter;
pub mod geom;
pub mod helpers;
pub mod input;
pub mod input_state;
pub mod interest;
pub mod keys;
pub mod layout;
pub mod pretty_tree;
pub mod render;
pub mod response;
pub mod state;
pub mod style;
pub mod test_input;
pub mod text;
pub mod view_nodes;
pub mod views;
